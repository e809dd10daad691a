//! Reading a line of numbers: tokens between single spaces, each an unsigned
//! decimal number with an optional plus sign in front.
use vstd::prelude::*;
use vstd::utf8::encode_utf8;

verus! {

/// Whether `b` is an ASCII digit.
pub open spec fn is_digit(b: u8) -> bool {
    48 <= b <= 57
}

/// Whether `s` holds ASCII digits only.
pub open spec fn all_digits(s: Seq<u8>) -> bool {
    forall|i: int| 0 <= i < s.len() ==> is_digit(#[trigger] s[i])
}

/// The number that a string of digits writes in base ten.
pub open spec fn number(digits: Seq<u8>) -> nat
    decreases digits.len(),
{
    if digits.len() == 0 {
        0
    } else {
        number(digits.drop_last()) * 10 + (digits.last() - 48) as nat
    }
}

/// The digits of a token: the token without a plus sign in front.
pub open spec fn digits_of(token: Seq<u8>) -> Seq<u8> {
    if token.len() > 0 && token[0] == 43 {
        token.skip(1)
    } else {
        token
    }
}

/// The number that a token writes, if it writes one that fits a `usize`.
pub open spec fn token_number(token: Seq<u8>) -> Option<nat> {
    let digits = digits_of(token);
    if digits.len() > 0 && all_digits(digits) && number(digits) <= usize::MAX {
        Some(number(digits))
    } else {
        None
    }
}

/// The tokens of a line: the pieces between its spaces, of which some may be
/// empty. A line without spaces is one token.
pub open spec fn tokens(line: Seq<u8>) -> Seq<Seq<u8>>
    decreases line.len(),
{
    if line.len() == 0 {
        seq![Seq::empty()]
    } else {
        let before = tokens(line.drop_last());
        if line.last() == 32 {
            before.push(Seq::empty())
        } else {
            before.update(before.len() - 1, before.last().push(line.last()))
        }
    }
}

/// The numbers that a line writes, if every token of it writes one.
pub open spec fn line_numbers(line: Seq<u8>) -> Option<Seq<nat>> {
    let parts = tokens(line);
    if forall|k: int| 0 <= k < parts.len() ==> (#[trigger] token_number(parts[k])).is_some() {
        Some(Seq::new(parts.len(), |k: int| token_number(parts[k]).unwrap()))
    } else {
        None
    }
}

/// Whether the numbers in `values` are those of `numbers`.
pub open spec fn holds(values: Seq<usize>, numbers: Seq<nat>) -> bool {
    &&& values.len() == numbers.len()
    &&& forall|k: int| 0 <= k < values.len() ==> #[trigger] values[k] == numbers[k]
}

/// A line has at least one token.
pub proof fn lemma_tokens_nonempty(line: Seq<u8>)
    ensures
        tokens(line).len() >= 1,
    decreases line.len(),
{
    if line.len() > 0 {
        lemma_tokens_nonempty(line.drop_last());
    }
}

/// All tokens of a part of a line that starts where the line starts, but the
/// last of them, are tokens of the line.
pub proof fn lemma_tokens_of_prefix(line: Seq<u8>, i: int)
    requires
        0 <= i <= line.len(),
    ensures
        1 <= tokens(line.take(i)).len() <= tokens(line).len(),
        forall|k: int|
            0 <= k < tokens(line.take(i)).len() - 1 ==> #[trigger] tokens(line)[k] == tokens(
                line.take(i),
            )[k],
    decreases line.len(),
{
    lemma_tokens_nonempty(line.take(i));
    if i == line.len() {
        assert(line.take(i) =~= line);
    } else {
        lemma_tokens_of_prefix(line.drop_last(), i);
        lemma_tokens_nonempty(line.drop_last());
        assert(line.drop_last().take(i) =~= line.take(i));
    }
}

/// A number does not shrink when digits are written behind it.
pub proof fn lemma_number_grows(digits: Seq<u8>, j: int)
    requires
        0 <= j <= digits.len(),
        all_digits(digits),
    ensures
        number(digits.take(j)) <= number(digits),
    decreases digits.len(),
{
    if j == digits.len() {
        assert(digits.take(j) =~= digits);
    } else {
        lemma_number_grows(digits.drop_last(), j);
        assert(digits.drop_last().take(j) =~= digits.take(j));
        assert(is_digit(digits[digits.len() - 1]));
    }
}

/// Reads the token that lies in `bytes` from `start` up to `end`.
pub fn parse_token(bytes: &[u8], start: usize, end: usize) -> (value: Option<usize>)
    requires
        start <= end <= bytes@.len(),
    ensures
        match token_number(bytes@.subrange(start as int, end as int)) {
            Some(n) => value == Some(n as usize),
            None => value.is_none(),
        },
{
    let ghost token = bytes@.subrange(start as int, end as int);
    let ghost digits = digits_of(token);
    let mut first = start;
    if first < end && bytes[first] == 43 {
        first += 1;
    }
    assert(digits =~= bytes@.subrange(first as int, end as int));
    if first == end {
        return None;
    }
    let mut pos = first;
    let mut value: usize = 0;
    while pos < end
        invariant
            start <= first <= pos <= end <= bytes@.len(),
            digits == digits_of(bytes@.subrange(start as int, end as int)),
            digits == bytes@.subrange(first as int, end as int),
            all_digits(digits.take(pos - first)),
            value == number(digits.take(pos - first)),
        decreases end - pos,
    {
        let b = bytes[pos];
        let ghost so_far = digits.take(pos - first);
        let ghost longer = digits.take(pos - first + 1);
        proof {
            assert(longer.drop_last() =~= so_far);
            assert(longer.last() == b);
        }
        if b < 48 || b > 57 {
            assert(!is_digit(digits[pos - first]));
            return None;
        }
        let digit = (b - 48) as usize;
        if value > (usize::MAX - digit) / 10 {
            proof {
                if all_digits(digits) {
                    lemma_number_grows(digits, pos - first + 1);
                }
            }
            return None;
        }
        value = value * 10 + digit;
        pos += 1;
        proof {
            assert forall|i: int| 0 <= i < longer.len() implies is_digit(#[trigger] longer[i]) by {
                if i < so_far.len() {
                    assert(longer[i] == so_far[i]);
                }
            }
        }
    }
    assert(digits.take(pos - first) =~= digits);
    Some(value)
}

/// Reads the numbers of a line of bytes.
pub fn parse_bytes(line: &[u8]) -> (values: Option<Vec<usize>>)
    ensures
        match line_numbers(line@) {
            Some(numbers) => values.is_some() && holds(values.unwrap()@, numbers),
            None => values.is_none(),
        },
{
    let mut out: Vec<usize> = Vec::new();
    let mut start: usize = 0;
    let mut i: usize = 0;
    let end = line.len();
    proof {
        assert(line@.take(0) =~= Seq::<u8>::empty());
        assert(line@.subrange(0, 0) =~= Seq::<u8>::empty());
    }
    while i < end
        invariant
            end == line@.len(),
            start <= i <= end,
            tokens(line@.take(i as int)).len() == out@.len() + 1,
            tokens(line@.take(i as int)).last() == line@.subrange(start as int, i as int),
            forall|k: int|
                0 <= k < out@.len() ==> token_number(#[trigger] tokens(line@.take(i as int))[k])
                    == Some(out@[k] as nat),
        decreases end - i,
    {
        let ghost shorter = line@.take(i as int);
        let ghost longer = line@.take(i + 1);
        let ghost parts = tokens(shorter);
        proof {
            assert(longer.drop_last() =~= shorter);
            assert(longer.last() == line@[i as int]);
        }
        if line[i] == 32 {
            match parse_token(line, start, i) {
                None => {
                    proof {
                        lemma_tokens_of_prefix(line@, i + 1);
                        assert(tokens(longer)[out@.len() as int] == parts.last());
                        assert(tokens(line@)[out@.len() as int] == parts.last());
                        assert(token_number(tokens(line@)[out@.len() as int]).is_none());
                    }
                    return None;
                },
                Some(value) => {
                    out.push(value);
                },
            }
            start = i + 1;
            proof {
                assert(line@.subrange(start as int, i + 1) =~= Seq::<u8>::empty());
                assert forall|k: int| 0 <= k < out@.len() implies token_number(
                    #[trigger] tokens(longer)[k],
                ) == Some(out@[k] as nat) by {
                    assert(tokens(longer)[k] == parts[k]);
                }
            }
        } else {
            proof {
                assert(line@.subrange(start as int, i + 1) =~= line@.subrange(
                    start as int,
                    i as int,
                ).push(line@[i as int]));
                assert forall|k: int| 0 <= k < out@.len() implies token_number(
                    #[trigger] tokens(longer)[k],
                ) == Some(out@[k] as nat) by {
                    assert(tokens(longer)[k] == parts[k]);
                }
            }
        }
        i += 1;
    }
    proof {
        assert(line@.take(i as int) =~= line@);
    }
    match parse_token(line, start, end) {
        None => {
            assert(token_number(tokens(line@)[out@.len() as int]).is_none());
            None
        },
        Some(value) => {
            out.push(value);
            proof {
                let parts = tokens(line@);
                assert forall|k: int| 0 <= k < parts.len() implies (#[trigger] token_number(
                    parts[k],
                )).is_some() by {
                    if k < out@.len() - 1 {
                        assert(token_number(parts[k]) == Some(out@[k] as nat));
                    }
                }
            }
            Some(out)
        },
    }
}

/// Reads the numbers of a line of text. The answer is `None` when a token of
/// the line is no number, or a number too large.
pub fn parse_line(line: String) -> (values: Option<Vec<usize>>)
    ensures
        match line_numbers(encode_utf8(line@)) {
            Some(numbers) => values.is_some() && holds(values.unwrap()@, numbers),
            None => values.is_none(),
        },
{
    parse_bytes(line.as_str().as_bytes())
}

} // verus!
