//! The text of an edge list: the tokens of a line and the numbers they
//! spell.

use vstd::prelude::*;
use vstd::std_specs::iter::IteratorSpec;

verus! {

/// Whether `c` is white space, by Unicode's property of that name.
pub open spec fn is_space(c: char) -> bool {
    let code = c as u32;
    ||| 0x09 <= code <= 0x0d
    ||| code == 0x20
    ||| code == 0x85
    ||| code == 0xa0
    ||| code == 0x1680
    ||| 0x2000 <= code <= 0x200a
    ||| code == 0x2028
    ||| code == 0x2029
    ||| code == 0x202f
    ||| code == 0x205f
    ||| code == 0x3000
}

/// Whether `c` is one of the ten decimal digits.
pub open spec fn is_digit(c: char) -> bool {
    '0' <= c <= '9'
}

/// The tokens that are complete after `text`, and the characters of the
/// token that may still go on.
pub open spec fn scan(text: Seq<char>) -> (Seq<Seq<char>>, Seq<char>)
    decreases text.len(),
{
    if text.len() == 0 {
        (Seq::empty(), Seq::empty())
    } else {
        let (complete, current) = scan(text.drop_last());
        if !is_space(text.last()) {
            (complete, current.push(text.last()))
        } else if current.len() > 0 {
            (complete.push(current), Seq::empty())
        } else {
            (complete, current)
        }
    }
}

/// The tokens of `text`: its longest runs of characters that are no white
/// space, in their order.
pub open spec fn tokens(text: Seq<char>) -> Seq<Seq<char>> {
    let (complete, current) = scan(text);
    if current.len() > 0 {
        complete.push(current)
    } else {
        complete
    }
}

/// The number that a run of digits spells in base ten.
pub open spec fn digits_value(digits: Seq<char>) -> nat
    decreases digits.len(),
{
    if digits.len() == 0 {
        0
    } else {
        digits_value(digits.drop_last()) * 10 + (digits.last() as u32 - 48) as nat
    }
}

/// The digits of a token: the token without a plus sign in front.
pub open spec fn unsigned_part(token: Seq<char>) -> Seq<char> {
    if token.len() > 0 && token[0] == '+' {
        token.drop_first()
    } else {
        token
    }
}

/// The number that `token` spells: one or more decimal digits, a plus sign
/// in front of them or none, with a value that a `usize` can hold. Any
/// other token spells none.
pub open spec fn token_number(token: Seq<char>) -> Option<usize> {
    let digits = unsigned_part(token);
    if digits.len() > 0 && (forall|i: int| 0 <= i < digits.len() ==> is_digit(#[trigger] digits[i]))
        && digits_value(digits) <= usize::MAX {
        Some(digits_value(digits) as usize)
    } else {
        None
    }
}

/// What every token of `text` spells, in order.
pub open spec fn numbers_of(text: Seq<char>) -> Seq<Option<usize>> {
    tokens(text).map_values(|token: Seq<char>| token_number(token))
}

/// Whether a token that has begun may still come to spell a number.
spec fn viable(token: Seq<char>) -> bool {
    token.len() == 0 || token == seq!['+'] || token_number(token) is Some
}

/// A token that can no longer spell a number stays so however it goes on.
proof fn lemma_viable_prefix(token: Seq<char>, c: char)
    requires
        viable(token.push(c)),
    ensures
        viable(token),
{
    let longer = token.push(c);
    if token.len() > 0 && token != seq!['+'] {
        assert(longer != seq!['+']) by {
            assert(longer.len() >= 2);
            assert(seq!['+'].len() == 1);
        }
        assert(longer[0] == token[0]);
        let digits = unsigned_part(token);
        let more = unsigned_part(longer);
        assert(more =~= digits.push(c));
        assert(more.drop_last() =~= digits);
        assert(digits.len() > 0) by {
            if digits.len() == 0 {
                assert(token =~= seq!['+']);
            }
        }
        assert forall|i: int| 0 <= i < digits.len() implies is_digit(#[trigger] digits[i]) by {
            assert(more[i] == digits[i]);
        }
    }
}

/// What a digit adds to a number that a token spells.
proof fn lemma_number_grows(token: Seq<char>, c: char)
    requires
        token_number(token) is Some || token == seq!['+'] || token.len() == 0,
        is_digit(c),
    ensures
        ({
            let before: nat = match token_number(token) {
                Some(value) => value as nat,
                None => 0,
            };
            let after = before * 10 + (c as u32 - 48);
            token_number(token.push(c)) == if after <= usize::MAX {
                Some(after as usize)
            } else {
                None
            }
        }),
{
    let longer = token.push(c);
    let digits = unsigned_part(token);
    let more = unsigned_part(longer);
    if token.len() == 0 {
        assert(more =~= seq![c]);
        assert(more.drop_last() =~= Seq::<char>::empty());
        assert(digits_value(more.drop_last()) == 0);
    } else {
        assert(longer[0] == token[0]);
        assert(more =~= digits.push(c));
        assert(more.drop_last() =~= digits);
        if token == seq!['+'] {
            assert(token[0] == '+');
            assert(digits =~= Seq::<char>::empty());
            assert(token_number(token) is None);
        }
    }
    assert forall|i: int| 0 <= i < more.len() implies is_digit(#[trigger] more[i]) by {
        if i < digits.len() {
            assert(more[i] == digits[i]);
        }
    }
}

/// A character that is neither a digit nor a plus sign at the start ends
/// a token's chance to spell a number.
proof fn lemma_number_ends(token: Seq<char>, c: char)
    requires
        !is_digit(c),
        !(token.len() == 0 && c == '+'),
    ensures
        !viable(token.push(c)),
{
    let longer = token.push(c);
    let more = unsigned_part(longer);
    if token.len() == 0 {
        assert(longer[0] == c);
        assert(more =~= longer);
        assert(more[0] == c);
        if longer == seq!['+'] {
            assert(seq!['+'][0] == '+');
        }
    } else {
        assert(longer.len() >= 2);
        assert(seq!['+'].len() == 1);
        assert(longer[longer.len() - 1] == c);
        if longer[0] == '+' {
            assert(more[more.len() - 1] == c);
        } else {
            assert(more[more.len() - 1] == c);
        }
    }
}

/// Whether `c` is white space.
pub fn is_whitespace(c: char) -> (space: bool)
    ensures
        space == is_space(c),
{
    let code = c as u32;
    (0x09 <= code && code <= 0x0d) || code == 0x20 || code == 0x85 || code == 0xa0 || code
        == 0x1680 || (0x2000 <= code && code <= 0x200a) || code == 0x2028 || code == 0x2029 || code
        == 0x202f || code == 0x205f || code == 0x3000
}

/// What every token of `line` spells: a number, or `None` for a token that
/// is no number. Tokens are parted by white space of any kind and length.
pub fn parse_tokens(line: &str) -> (numbers: Vec<Option<usize>>)
    ensures
        numbers@ == numbers_of(line@),
{
    let mut numbers: Vec<Option<usize>> = Vec::new();
    let mut in_token = false;
    let mut value: Option<usize> = None;
    let mut alive = true;
    let ghost number = |token: Seq<char>| token_number(token);
    assert(Seq::<Seq<char>>::empty().map_values(number) =~= Seq::<Option<usize>>::empty());

    for c in it: line.chars()
        invariant
            it.seq() == line@,
            number == |token: Seq<char>| token_number(token),
            numbers@ == scan(line@.take(it.index())).0.map_values(number),
            in_token == (scan(line@.take(it.index())).1.len() > 0),
            alive == viable(scan(line@.take(it.index())).1),
            alive ==> value == token_number(scan(line@.take(it.index())).1),
    {
        let ghost before = line@.take(it.index());
        let ghost after = line@.take(it.index() + 1);
        let ghost (complete, current) = scan(before);
        proof {
            assert(after.drop_last() =~= before);
            assert(after.last() == c);
        }
        if is_whitespace(c) {
            if in_token {
                proof {
                    assert(complete.push(current).map_values(number) =~= complete.map_values(
                        number,
                    ).push(number(current)));
                    if !alive {
                        assert(token_number(current) is None);
                    }
                }
                numbers.push(
                    if alive {
                        value
                    } else {
                        None
                    },
                );
                in_token = false;
                value = None;
                alive = true;
            }
        } else {
            proof {
                if !alive {
                    if viable(current.push(c)) {
                        lemma_viable_prefix(current, c);
                    }
                }
            }
            if alive {
                if c >= '0' && c <= '9' {
                    proof {
                        lemma_number_grows(current, c);
                    }
                    let digit = (c as u32 - '0' as u32) as usize;
                    let known: usize = match value {
                        Some(known) => known,
                        None => 0,
                    };
                    value = match known.checked_mul(10) {
                        Some(tenfold) => tenfold.checked_add(digit),
                        None => None,
                    };
                    proof {
                        if value is None {
                            assert(current.push(c).len() >= 1);
                            assert(current.push(c) != seq!['+']) by {
                                assert(current.push(c)[current.len() as int] == c);
                                if current.push(c) == seq!['+'] {
                                    assert(seq!['+'][0] == '+');
                                }
                            }
                        }
                    }
                    alive = value.is_some();
                } else if c == '+' && !in_token {
                    proof {
                        assert(current.push(c) =~= seq!['+']);
                        assert(unsigned_part(seq!['+']) =~= Seq::<char>::empty());
                    }
                    value = None;
                } else {
                    proof {
                        lemma_number_ends(current, c);
                    }
                    value = None;
                    alive = false;
                }
            }
            in_token = true;
        }
    }
    proof {
        assert(line@.take(line@.len() as int) =~= line@);
        let (complete, current) = scan(line@);
        assert(complete.push(current).map_values(number) =~= complete.map_values(number).push(
            number(current),
        ));
        if !alive {
            assert(token_number(current) is None);
        }
    }
    if in_token {
        numbers.push(
            if alive {
                value
            } else {
                None
            },
        );
    }
    numbers
}

} // verus!
