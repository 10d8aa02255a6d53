//! Reading numbers and fixed words from the text of a puzzle input.
//!
//! Each reader takes the text that is left, as bytes, and returns what it
//! read together with the text after it.

use vstd::prelude::*;
use vstd::slice::slice_subrange;

verus! {

/// Why a text could not be read.
#[derive(Debug, Clone, Copy, PartialEq, Eq, Structural)]
pub enum ReadError {
    /// The text does not start with what was to be read.
    Malformed,
    /// The text starts with a number that does not fit its type.
    OutOfRange,
}

/// Whether `c` is an ASCII decimal digit.
pub open spec fn is_digit(c: u8) -> bool {
    48 <= c <= 57
}

/// Whether `c` is an ASCII letter.
pub open spec fn is_letter(c: u8) -> bool {
    65 <= c <= 90 || 97 <= c <= 122
}

/// The number of bytes from index `from` of `text` on, up to the first one
/// for which `wanted` does not hold.
pub open spec fn run(text: Seq<u8>, wanted: spec_fn(u8) -> bool, from: int) -> nat
    decreases text.len() - from,
{
    if 0 <= from < text.len() && wanted(text[from]) {
        1 + run(text, wanted, from + 1)
    } else {
        0
    }
}

/// The number that the decimal digits `digits` spell.
pub open spec fn decimal(digits: Seq<u8>) -> nat
    decreases digits.len(),
{
    if digits.len() == 0 {
        0
    } else {
        10 * decimal(digits.drop_last()) + (digits.last() - 48) as nat
    }
}

/// More digits spell no smaller a number.
pub proof fn lemma_decimal_grows(digits: Seq<u8>, k: int, n: int)
    requires
        0 <= k <= n <= digits.len(),
        forall|i: int| 0 <= i < n ==> is_digit(#[trigger] digits[i]),
    ensures
        decimal(digits.take(k)) <= decimal(digits.take(n)),
    decreases n - k,
{
    if k < n {
        lemma_decimal_grows(digits, k + 1, n);
        assert(digits.take(k + 1).drop_last() =~= digits.take(k));
    }
}

/// A run is made of wanted bytes and ends at the first other one.
pub proof fn lemma_run(text: Seq<u8>, wanted: spec_fn(u8) -> bool, from: int)
    requires
        0 <= from <= text.len(),
    ensures
        from + run(text, wanted, from) <= text.len(),
        forall|i: int| from <= i < from + run(text, wanted, from) ==> wanted(#[trigger] text[i]),
        from + run(text, wanted, from) < text.len() ==> !wanted(
            text[from + run(text, wanted, from)],
        ),
    decreases text.len() - from,
{
    if from < text.len() && wanted(text[from]) {
        lemma_run(text, wanted, from + 1);
    }
}

/// The text after its first `n` bytes.
pub fn after(input: &[u8], n: usize) -> (rest: &[u8])
    requires
        n <= input@.len(),
    ensures
        rest@ == input@.skip(n as int),
{
    slice_subrange(input, n, input.len())
}

/// Whether `text` begins with `word`.
pub open spec fn starts_with(text: Seq<u8>, word: Seq<u8>) -> bool {
    word.len() <= text.len() && text.take(word.len() as int) == word
}

/// The text after `word`, where the input begins with it.
pub fn tag<'a>(input: &'a [u8], word: &[u8]) -> (r: Result<&'a [u8], ReadError>)
    ensures
        match r {
            Ok(rest) => starts_with(input@, word@) && rest@ == input@.skip(word@.len() as int),
            Err(e) => !starts_with(input@, word@) && e == ReadError::Malformed,
        },
{
    if word.len() > input.len() {
        return Err(ReadError::Malformed);
    }
    let mut i: usize = 0;
    while i < word.len()
        invariant
            i <= word@.len() <= input@.len(),
            forall|k: int| 0 <= k < i ==> input@[k] == word@[k],
        decreases word.len() - i,
    {
        if input[i] != word[i] {
            return Err(ReadError::Malformed);
        }
        i = i + 1;
    }
    assert(input@.take(word@.len() as int) =~= word@);
    Ok(after(input, word.len()))
}

/// The text after the byte `c`, where the input begins with it.
pub fn byte(input: &[u8], c: u8) -> (r: Result<&[u8], ReadError>)
    ensures
        match r {
            Ok(rest) => input@.len() > 0 && input@[0] == c && rest@ == input@.skip(1),
            Err(e) => !(input@.len() > 0 && input@[0] == c) && e == ReadError::Malformed,
        },
{
    if input.len() > 0 && input[0] == c {
        Ok(after(input, 1))
    } else {
        Err(ReadError::Malformed)
    }
}

/// The text after one line feed, where the input begins with one.
pub fn newline(input: &[u8]) -> (r: Result<&[u8], ReadError>)
    ensures
        match r {
            Ok(rest) => input@.len() > 0 && input@[0] == 10 && rest@ == input@.skip(1),
            Err(e) => !(input@.len() > 0 && input@[0] == 10) && e == ReadError::Malformed,
        },
{
    byte(input, 10)
}

/// The unsigned number at the start of `text`, and the number of bytes it
/// takes: the longest run of digits there, which must not be empty and
/// must spell a number of at most `limit`.
pub open spec fn number(text: Seq<u8>, limit: nat) -> Result<(nat, nat), ReadError> {
    let n = run(text, |c: u8| is_digit(c), 0);
    if n == 0 {
        Err(ReadError::Malformed)
    } else if decimal(text.take(n as int)) > limit {
        Err(ReadError::OutOfRange)
    } else {
        Ok((decimal(text.take(n as int)), n))
    }
}

/// Reads the unsigned number at the start of the input, of at most `limit`.
pub fn read_number(input: &[u8], limit: u32) -> (r: Result<(&[u8], u32), ReadError>)
    ensures
        match number(input@, limit as nat) {
            Ok((value, n)) => r matches Ok((rest, v)) && v == value && rest@ == input@.skip(
                n as int,
            ),
            Err(e) => r matches Err(x) && x == e,
        },
{
    let ghost wanted = |c: u8| is_digit(c);
    let mut value: u32 = 0;
    let mut i: usize = 0;
    proof {
        lemma_run(input@, wanted, 0);
    }
    while i < input.len() && 48 <= input[i] && input[i] <= 57
        invariant
            i <= input@.len(),
            wanted == (|c: u8| is_digit(c)),
            run(input@, wanted, 0) == i + run(input@, wanted, i as int),
            value == decimal(input@.take(i as int)),
            value <= limit,
            run(input@, wanted, 0) <= input@.len(),
            forall|k: int|
                0 <= k < run(input@, wanted, 0) ==> is_digit(#[trigger] input@[k]),
        decreases input.len() - i,
    {
        let digit = (input[i] - 48) as u32;
        proof {
            assert(input@.take(i + 1).drop_last() =~= input@.take(i as int));
            lemma_decimal_grows(input@, i + 1, run(input@, wanted, 0) as int);
        }
        if digit > limit || value > (limit - digit) / 10 {
            return Err(ReadError::OutOfRange);
        }
        value = value * 10 + digit;
        i = i + 1;
    }
    if i == 0 {
        Err(ReadError::Malformed)
    } else {
        Ok((after(input, i), value))
    }
}

/// The signed number at the start of `text`, and the number of bytes it
/// takes: a plus or minus sign or none, then a number, which must fit into
/// 32 bits with the sign.
pub open spec fn integer(text: Seq<u8>) -> Result<(int, nat), ReadError> {
    if text.len() > 0 && text[0] == 45 {
        match number(text.skip(1), 0x8000_0000) {
            Ok((value, n)) => Ok((-(value as int), n + 1)),
            Err(e) => Err(e),
        }
    } else if text.len() > 0 && text[0] == 43 {
        match number(text.skip(1), 0x7fff_ffff) {
            Ok((value, n)) => Ok((value as int, n + 1)),
            Err(e) => Err(e),
        }
    } else {
        match number(text, 0x7fff_ffff) {
            Ok((value, n)) => Ok((value as int, n)),
            Err(e) => Err(e),
        }
    }
}

/// A number takes at least one byte, and only bytes that the text has.
pub proof fn lemma_number_within(text: Seq<u8>, limit: nat)
    ensures
        number(text, limit) matches Ok((_, n)) ==> 0 < n <= text.len(),
{
    lemma_run(text, |c: u8| is_digit(c), 0);
}

/// A signed number takes at least one byte, and only bytes that the text
/// has.
pub proof fn lemma_integer_within(text: Seq<u8>)
    ensures
        integer(text) matches Ok((_, n)) ==> 0 < n <= text.len(),
{
    lemma_number_within(text, 0x7fff_ffff);
    if text.len() > 0 {
        lemma_number_within(text.skip(1), 0x7fff_ffff);
        lemma_number_within(text.skip(1), 0x8000_0000);
    }
}

/// Reads the signed number at the start of the input.
pub fn read_i32(input: &[u8]) -> (r: Result<(&[u8], i32), ReadError>)
    ensures
        match integer(input@) {
            Ok((value, n)) => r matches Ok((rest, v)) && v == value && rest@ == input@.skip(
                n as int,
            ) && 0 < n <= input@.len(),
            Err(e) => r matches Err(x) && x == e,
        },
{
    proof {
        lemma_run(input@, |c: u8| is_digit(c), 0);
        if input@.len() > 0 {
            lemma_run(input@.skip(1), |c: u8| is_digit(c), 0);
        }
    }
    if input.len() > 0 && input[0] == 45 {
        match read_number(after(input, 1), 0x8000_0000) {
            Ok((rest, value)) => {
                if value == 0x8000_0000 {
                    Ok((rest, i32::MIN))
                } else {
                    Ok((rest, -(value as i32)))
                }
            },
            Err(e) => Err(e),
        }
    } else if input.len() > 0 && input[0] == 43 {
        match read_number(after(input, 1), 0x7fff_ffff) {
            Ok((rest, value)) => {
                Ok((rest, value as i32))
            },
            Err(e) => Err(e),
        }
    } else {
        match read_number(input, 0x7fff_ffff) {
            Ok((rest, value)) => Ok((rest, value as i32)),
            Err(e) => Err(e),
        }
    }
}

/// Reads the unsigned number of at most 32 bits at the start of the input.
pub fn read_u32(input: &[u8]) -> (r: Result<(&[u8], u32), ReadError>)
    ensures
        match number(input@, u32::MAX as nat) {
            Ok((value, n)) => r matches Ok((rest, v)) && v == value && rest@ == input@.skip(
                n as int,
            ) && 0 < n <= input@.len(),
            Err(e) => r matches Err(x) && x == e,
        },
{
    proof {
        lemma_run(input@, |c: u8| is_digit(c), 0);
    }
    read_number(input, u32::MAX)
}

/// Whether `c` is a space or a tab.
pub open spec fn is_blank(c: u8) -> bool {
    c == 32 || c == 9
}

/// Whether the two texts are the same.
pub fn same(a: &[u8], b: &[u8]) -> (r: bool)
    ensures
        r == (a@ == b@),
{
    if a.len() != b.len() {
        return false;
    }
    let mut i: usize = 0;
    while i < a.len()
        invariant
            i <= a@.len() == b@.len(),
            forall|k: int| 0 <= k < i ==> a@[k] == b@[k],
        decreases a.len() - i,
    {
        if a[i] != b[i] {
            return false;
        }
        i = i + 1;
    }
    assert(a@ =~= b@);
    true
}

/// The letters at the start of the input, of which there must be one at
/// least, and the text after them.
pub fn alpha1(input: &[u8]) -> (r: Result<(&[u8], &[u8]), ReadError>)
    ensures
        match r {
            Ok((rest, word)) => {
                let n = run(input@, |c: u8| is_letter(c), 0);
                n > 0 && word@ == input@.take(n as int) && rest@ == input@.skip(n as int)
            },
            Err(e) => run(input@, |c: u8| is_letter(c), 0) == 0 && e == ReadError::Malformed,
        },
{
    let ghost wanted = |c: u8| is_letter(c);
    let mut i: usize = 0;
    while i < input.len() && ((65 <= input[i] && input[i] <= 90) || (97 <= input[i] && input[i]
        <= 122))
        invariant
            i <= input@.len(),
            wanted == (|c: u8| is_letter(c)),
            run(input@, wanted, 0) == i + run(input@, wanted, i as int),
        decreases input.len() - i,
    {
        i = i + 1;
    }
    if i == 0 {
        Err(ReadError::Malformed)
    } else {
        Ok((after(input, i), slice_subrange(input, 0, i)))
    }
}

/// The text after the spaces and tabs at the start of the input, of which
/// there must be one at least.
pub fn space1(input: &[u8]) -> (r: Result<&[u8], ReadError>)
    ensures
        match r {
            Ok(rest) => {
                let n = run(input@, |c: u8| is_blank(c), 0);
                n > 0 && rest@ == input@.skip(n as int)
            },
            Err(e) => run(input@, |c: u8| is_blank(c), 0) == 0 && e == ReadError::Malformed,
        },
{
    let ghost wanted = |c: u8| is_blank(c);
    let mut i: usize = 0;
    while i < input.len() && (input[i] == 32 || input[i] == 9)
        invariant
            i <= input@.len(),
            wanted == (|c: u8| is_blank(c)),
            run(input@, wanted, 0) == i + run(input@, wanted, i as int),
        decreases input.len() - i,
    {
        i = i + 1;
    }
    if i == 0 {
        Err(ReadError::Malformed)
    } else {
        Ok(after(input, i))
    }
}

/// The rest of a list, read after the items `done` that took `used` bytes.
pub open spec fn prepend<T>(done: Seq<T>, used: nat, r: Result<(Seq<T>, nat), ReadError>) -> Result<
    (Seq<T>, nat),
    ReadError,
> {
    match r {
        Ok((rest, more)) => Ok((done + rest, used + more)),
        Err(e) => Err(e),
    }
}

/// Prepending in two steps is prepending the longer list.
pub proof fn lemma_prepend_twice<T>(
    done: Seq<T>,
    used: nat,
    next: T,
    took: nat,
    r: Result<(Seq<T>, nat), ReadError>,
)
    ensures
        prepend(done, used, prepend(seq![next], took, r)) == prepend(
            done.push(next),
            used + took,
            r,
        ),
{
    if let Ok((rest, _)) = r {
        assert(done + (seq![next] + rest) =~= done.push(next) + rest);
    }
}

/// The decimal digits of `n`, without leading zeros.
pub open spec fn digits_of(n: nat) -> Seq<u8>
    decreases n,
{
    if n < 10 {
        seq![(48 + n) as u8]
    } else {
        digits_of(n / 10).push((48 + n % 10) as u8)
    }
}

/// The digits of a number spell that number.
pub proof fn lemma_digits_spell(n: nat)
    ensures
        decimal(digits_of(n)) == n,
        forall|i: int| 0 <= i < digits_of(n).len() ==> is_digit(#[trigger] digits_of(n)[i]),
    decreases n,
{
    if n < 10 {
        assert(digits_of(n).drop_last() =~= Seq::<u8>::empty());
        assert(decimal(Seq::<u8>::empty()) == 0);
    } else {
        lemma_digits_spell(n / 10);
        assert(digits_of(n).drop_last() =~= digits_of(n / 10));
    }
}

/// Appends the decimal digits of `n` to `text`.
pub fn write_number(text: &mut Vec<u8>, n: u32)
    ensures
        final(text)@ == old(text)@ + digits_of(n as nat),
{
    let mut reversed: Vec<u8> = Vec::new();
    let mut left: u32 = n;
    while left >= 10
        invariant
            digits_of(n as nat) == digits_of(left as nat) + reversed@.reverse(),
        decreases left,
    {
        let digit: u8 = 48 + (left % 10) as u8;
        proof {
            let next = (left / 10) as nat;
            assert(digits_of(next) + reversed@.push(digit).reverse() =~= digits_of(left as nat)
                + reversed@.reverse());
        }
        reversed.push(digit);
        left = left / 10;
    }
    let first: u8 = 48 + left as u8;
    text.push(first);
    let ghost start = old(text)@;
    let ghost shown = reversed@.reverse();
    let mut i: usize = reversed.len();
    while i > 0
        invariant
            i <= reversed@.len(),
            shown == reversed@.reverse(),
            text@ == start.push(first) + shown.take(reversed@.len() - i),
        decreases i,
    {
        i = i - 1;
        assert(shown.take(reversed@.len() - i) =~= shown.take(reversed@.len() - i - 1).push(
            reversed@[i as int],
        ));
        text.push(reversed[i]);
    }
}

/// Appends the bytes of `word` to `text`.
pub fn write_word(text: &mut Vec<u8>, word: &[u8])
    ensures
        final(text)@ == old(text)@ + word@,
{
    let mut i: usize = 0;
    while i < word.len()
        invariant
            i <= word@.len(),
            text@ == old(text)@ + word@.take(i as int),
        decreases word.len() - i,
    {
        text.push(word[i]);
        i = i + 1;
    }
}

} // verus!
