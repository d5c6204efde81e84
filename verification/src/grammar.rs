//! The rules of procedure text that do not depend on how the text is cut
//! into pieces: which sigil stands for which token, what the digits of a
//! slot are worth, and which gate the sign of a slot list asks for.

use vstd::prelude::*;
use vstd::std_specs::iter::IteratorSpec;
use crate::parallel::gate::{Gate, GateType, GateView, Slot};
use crate::token::{Token, TokenView};

verus! {

pub const INGREDIENT_SIGIL: char = '*';

pub const ACTION_SIGIL: char = '=';

pub const COMBINATION_SIGIL: char = '/';

pub const MODIFIER_SIGIL: char = ',';

pub const ANNOTATION_SIGIL: char = ';';

pub const SPLIT_START_SIGIL: char = '[';

pub const SPLIT_CLOSE_SIGIL: char = ']';

pub const SPLIT_SEP_SIGIL: char = '|';

pub const GATE_SIGIL: char = '#';

pub const SLOT_SEP_SIGIL: char = ',';

pub const INVERTED_GATE_SIGIL: char = '!';

/// The token that a sigil makes of a phrase, if the sigil is one of a token.
pub open spec fn token_of(sigil: char, phrase: Seq<char>) -> Option<TokenView> {
    if sigil == INGREDIENT_SIGIL {
        Some(TokenView::Ingredient(phrase))
    } else if sigil == ACTION_SIGIL {
        Some(TokenView::Verb(phrase))
    } else if sigil == COMBINATION_SIGIL {
        Some(TokenView::Combine(phrase))
    } else if sigil == MODIFIER_SIGIL {
        Some(TokenView::Modifier(phrase))
    } else if sigil == ANNOTATION_SIGIL {
        Some(TokenView::Annotation(phrase))
    } else {
        None
    }
}

/// The token that a sigil makes of a phrase: `*` an ingredient, `=` an
/// action, `/` a combination, `,` a modifier and `;` an annotation.
pub fn token_for(sigil: char, phrase: String) -> (r: Option<Token>)
    ensures
        r is Some == token_of(sigil, phrase@) is Some,
        r is Some ==> r->0@ == token_of(sigil, phrase@)->0,
{
    if sigil == INGREDIENT_SIGIL {
        Some(Token::Ingredient(phrase))
    } else if sigil == ACTION_SIGIL {
        Some(Token::Verb(phrase))
    } else if sigil == COMBINATION_SIGIL {
        Some(Token::Combine(phrase))
    } else if sigil == MODIFIER_SIGIL {
        Some(Token::Modifier(phrase))
    } else if sigil == ANNOTATION_SIGIL {
        Some(Token::Annotation(phrase))
    } else {
        None
    }
}

/// What a slot list asks for: a block-list where the list is marked as
/// inverted, an allow-list where it is not.
pub fn gate_for(inverted: bool, slots: Vec<Slot>) -> (r: Gate)
    ensures
        r@ == (GateView {
            kind: if inverted {
                GateType::Block
            } else {
                GateType::Allow
            },
            slots: slots@.to_set(),
        }),
        forall|slot: Slot| r@.allows(slot) == (slots@.contains(slot) != inverted),
{
    if inverted {
        Gate::block(slots)
    } else {
        Gate::allow(slots)
    }
}

/// What an alternative without a slot list gets: a gate that allows every
/// slot.
pub fn open_gate() -> (r: Gate)
    ensures
        r@ == GateView::allow_all(),
{
    Gate::allow_all()
}

/// Whether a character is a decimal digit.
pub open spec fn is_digit(c: char) -> bool {
    '0' <= c <= '9'
}

/// What a decimal digit is worth.
pub open spec fn digit_value(c: char) -> nat
    recommends
        is_digit(c),
{
    (c as int - '0' as int) as nat
}

/// Whether a text is made of decimal digits.
pub open spec fn all_digits(text: Seq<char>) -> bool {
    forall|i: int| 0 <= i < text.len() ==> is_digit(#[trigger] text[i])
}

/// Whether a text is made of the digit zero.
pub open spec fn all_zeros(text: Seq<char>) -> bool {
    forall|i: int| 0 <= i < text.len() ==> #[trigger] text[i] == '0'
}

/// What digits are worth as a number in decimal notation.
pub open spec fn decimal_value(digits: Seq<char>) -> nat
    decreases digits.len(),
{
    if digits.len() == 0 {
        0
    } else {
        decimal_value(digits.drop_last()) * 10 + digit_value(digits.last())
    }
}

/// The slot that a text names: the worth of its digits, where it is made
/// of digits, has one at least, and is worth no more than a slot can hold.
pub open spec fn slot_of(text: Seq<char>) -> Option<Slot> {
    if text.len() > 0 && all_digits(text) && decimal_value(text) <= Slot::MAX {
        Some(decimal_value(text) as Slot)
    } else {
        None
    }
}

/// Digits are worth no less than the digits they begin with.
pub proof fn lemma_decimal_value_grows(digits: Seq<char>, n: int)
    requires
        0 <= n <= digits.len(),
    ensures
        decimal_value(digits.take(n)) <= decimal_value(digits),
    decreases digits.len() - n,
{
    if n < digits.len() {
        lemma_decimal_value_grows(digits, n + 1);
        assert(digits.take(n + 1).drop_last() =~= digits.take(n));
    } else {
        assert(digits.take(n) =~= digits);
    }
}

/// Whether a text is made of the digit zero. The empty text is.
pub fn is_all_zeros(text: &str) -> (r: bool)
    ensures
        r == all_zeros(text@),
{
    broadcast use {vstd::string::axiom_spec_iter, vstd::string::next_postcondition};

    let mut rest = text.chars();
    let ghost mut n: int = 0;
    proof {
        assert(text@.skip(0) =~= text@);
    }
    loop
        invariant
            0 <= n <= text@.len(),
            rest.remaining() == text@.skip(n),
            forall|i: int| 0 <= i < n ==> #[trigger] text@[i] == '0',
        decreases text@.len() - n,
    {
        match rest.next() {
            None => {
                return true;
            },
            Some(c) => {
                proof {
                    assert(text@.skip(n)[0] == text@[n]);
                    assert(text@.skip(n).drop_first() =~= text@.skip(n + 1));
                }
                if c != '0' {
                    return false;
                }
                proof {
                    n = n + 1;
                }
            },
        }
    }
}

/// The slot that a text names, if it names one.
pub fn slot_from_digits(text: &str) -> (r: Option<Slot>)
    ensures
        r == slot_of(text@),
{
    broadcast use {vstd::string::axiom_spec_iter, vstd::string::next_postcondition};

    let mut rest = text.chars();
    let mut value: u16 = 0;
    let mut any = false;
    let ghost mut n: int = 0;
    proof {
        assert(text@.skip(0) =~= text@);
        assert(text@.take(0) =~= Seq::<char>::empty());
    }
    loop
        invariant
            0 <= n <= text@.len(),
            rest.remaining() == text@.skip(n),
            all_digits(text@.take(n)),
            value == decimal_value(text@.take(n)),
            value <= Slot::MAX,
            any == (n > 0),
        decreases text@.len() - n,
    {
        match rest.next() {
            None => {
                proof {
                    assert(text@.take(n) =~= text@);
                }
                if !any {
                    return None;
                }
                return Some(value as Slot);
            },
            Some(c) => {
                proof {
                    assert(text@.skip(n)[0] == text@[n]);
                    assert(text@.skip(n).drop_first() =~= text@.skip(n + 1));
                    assert(text@.take(n + 1).drop_last() =~= text@.take(n));
                    assert(text@.take(n + 1).last() == c);
                }
                let digit: u16 = if c == '0' {
                    0
                } else if c == '1' {
                    1
                } else if c == '2' {
                    2
                } else if c == '3' {
                    3
                } else if c == '4' {
                    4
                } else if c == '5' {
                    5
                } else if c == '6' {
                    6
                } else if c == '7' {
                    7
                } else if c == '8' {
                    8
                } else if c == '9' {
                    9
                } else {
                    proof {
                        assert(!is_digit(text@[n]));
                    }
                    return None;
                };
                assert(digit == digit_value(c));
                value = value * 10 + digit;
                if value > 255 {
                    proof {
                        lemma_decimal_value_grows(text@, n + 1);
                    }
                    return None;
                }
                proof {
                    assert forall|i: int| 0 <= i < n + 1 implies is_digit(
                        #[trigger] text@.take(n + 1)[i],
                    ) by {
                        if i < n {
                            assert(text@.take(n + 1)[i] == text@.take(n)[i]);
                        }
                    }
                    n = n + 1;
                }
                any = true;
            },
        }
    }
}

} // verus!
