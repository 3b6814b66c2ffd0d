//! The Verhoeff check digit.
//!
//! The algorithm folds the digits of a string, from the right, into one
//! element of the dihedral group of order ten, each digit first sent through
//! a permutation that depends on its place. It notices every single wrong
//! digit and every exchange of two neighbours that differ: this module proves
//! both.

use crate::error::{MatterPayloadError, VerhoeffError};
use crate::text::{
    all_decimal_digits, digit_char, digit_value, from_digit, is_decimal_digit, to_digit,
};
use vstd::prelude::*;

verus! {

/// The composition table of the dihedral group of order ten.
pub const D_TABLE: [[u8; 10]; 10] = [
    [0, 1, 2, 3, 4, 5, 6, 7, 8, 9],
    [1, 2, 3, 4, 0, 6, 7, 8, 9, 5],
    [2, 3, 4, 0, 1, 7, 8, 9, 5, 6],
    [3, 4, 0, 1, 2, 8, 9, 5, 6, 7],
    [4, 0, 1, 2, 3, 9, 5, 6, 7, 8],
    [5, 9, 8, 7, 6, 0, 4, 3, 2, 1],
    [6, 5, 9, 8, 7, 1, 0, 4, 3, 2],
    [7, 6, 5, 9, 8, 2, 1, 0, 4, 3],
    [8, 7, 6, 5, 9, 3, 2, 1, 0, 4],
    [9, 8, 7, 6, 5, 4, 3, 2, 1, 0],
];

/// The permutations of the digits, one for each place modulo eight. Row 0 is
/// the identity.
pub const P_TABLE: [[u8; 10]; 8] = [
    [0, 1, 2, 3, 4, 5, 6, 7, 8, 9],
    [1, 5, 7, 6, 2, 8, 3, 0, 9, 4],
    [5, 8, 0, 3, 7, 9, 6, 1, 4, 2],
    [8, 9, 1, 6, 0, 4, 3, 5, 2, 7],
    [9, 4, 5, 3, 1, 2, 6, 8, 7, 0],
    [4, 2, 8, 6, 5, 7, 3, 9, 0, 1],
    [2, 7, 9, 3, 8, 0, 6, 4, 1, 5],
    [7, 0, 4, 6, 9, 1, 3, 2, 5, 8],
];

/// The inverse of each element of the group.
pub const INV_TABLE: [u8; 10] = [0, 4, 3, 2, 1, 5, 6, 7, 8, 9];

/// `a` composed with `b` in the group.
pub open spec fn compose(a: u8, b: u8) -> u8
    recommends
        a < 10,
        b < 10,
{
    D_TABLE[a as int][b as int]
}

/// The digit `digit` as it counts at place `place`, places counted from the
/// right.
pub open spec fn permuted(place: nat, digit: u8) -> u8
    recommends
        digit < 10,
{
    P_TABLE[(place % 8) as int][digit as int]
}

/// The inverse of `a` in the group.
pub open spec fn inverse(a: u8) -> u8
    recommends
        a < 10,
{
    INV_TABLE[a as int]
}

/// Every entry is a digit.
pub open spec fn are_digits(digits: Seq<u8>) -> bool {
    forall|i: int| 0 <= i < digits.len() ==> #[trigger] digits[i] < 10
}

/// The group element that the digits fold into, from the right, where the
/// rightmost digit stands at place `offset`.
pub open spec fn folded(digits: Seq<u8>, offset: nat) -> u8
    decreases digits.len(),
{
    if digits.len() == 0 {
        0
    } else {
        compose(
            folded(digits.drop_first(), offset),
            permuted((offset + digits.len() - 1) as nat, digits[0]),
        )
    }
}

/// The check digit of a run of digits: appended to them, it makes them
/// valid. The digits stand at the places from 1 on, place 0 is kept for the
/// check digit.
pub open spec fn check_digit(digits: Seq<u8>) -> u8 {
    inverse(folded(digits, 1))
}

/// A run of digits whose last one is its check digit is valid if it folds
/// into the identity, the check digit at place 0.
pub open spec fn is_valid(digits: Seq<u8>) -> bool {
    folded(digits, 0) == 0
}

/// The first character that is no decimal digit, if there is one.
pub open spec fn first_non_digit(s: Seq<char>) -> Option<char>
    decreases s.len(),
{
    if s.len() == 0 {
        None
    } else if !is_decimal_digit(s[0]) {
        Some(s[0])
    } else {
        first_non_digit(s.drop_first())
    }
}

/// The numbers of a string of decimal digits.
pub open spec fn digits_of(s: Seq<char>) -> Seq<u8> {
    Seq::new(s.len(), |i: int| digit_value(s[i]))
}

/// What `string_to_digits` returns: the digits of a string that holds
/// nothing else, and at least one.
pub open spec fn string_to_digits_spec(s: Seq<char>) -> Result<Seq<u8>, VerhoeffError> {
    if s.len() == 0 {
        Err(VerhoeffError::EmptyInput)
    } else {
        match first_non_digit(s) {
            Some(c) => Err(VerhoeffError::InvalidCharacter(c)),
            None => Ok(digits_of(s)),
        }
    }
}

/// What `calculate_checksum` returns.
pub open spec fn calculate_checksum_spec(s: Seq<char>) -> Result<u8, MatterPayloadError> {
    match string_to_digits_spec(s) {
        Ok(digits) => Ok(check_digit(digits)),
        Err(e) => Err(MatterPayloadError::Verhoeff(e)),
    }
}

/// What `validate` returns.
pub open spec fn validate_spec(s: Seq<char>) -> Result<bool, MatterPayloadError> {
    match string_to_digits_spec(s) {
        Ok(digits) => Ok(is_valid(digits)),
        Err(e) => Err(MatterPayloadError::Verhoeff(e)),
    }
}

/// A string of digits with its check digit appended.
pub open spec fn with_check_digit(s: Seq<char>) -> Seq<char> {
    s.push(digit_char(check_digit(digits_of(s))))
}

/// A string with the characters at `at` and `at + 1` exchanged.
pub open spec fn with_neighbours_exchanged<T>(s: Seq<T>, at: int) -> Seq<T>
    recommends
        0 <= at,
        at + 1 < s.len(),
{
    s.update(at, s[at + 1]).update(at + 1, s[at])
}

/// The tables hold digits only, 0 is the identity of the group, and
/// `inverse` gives the inverse from the left.
pub proof fn lemma_group_tables(a: u8, b: u8, place: nat)
    requires
        a < 10,
        b < 10,
    ensures
        compose(a, b) < 10,
        permuted(place, a) < 10,
        inverse(a) < 10,
        compose(0, a) == a,
        compose(a, 0) == a,
        compose(inverse(a), a) == 0,
        permuted(0, a) == a,
{
}

/// The composition is associative.
pub proof fn lemma_compose_associative(a: u8, b: u8, c: u8)
    requires
        a < 10,
        b < 10,
        c < 10,
    ensures
        compose(compose(a, b), c) == compose(a, compose(b, c)),
{
}

/// What is composed with the same element, from either side, stays apart.
pub proof fn lemma_compose_cancels(a: u8, x: u8, y: u8)
    requires
        a < 10,
        x < 10,
        y < 10,
        x != y,
    ensures
        compose(a, x) != compose(a, y),
        compose(x, a) != compose(y, a),
{
}

/// Each row of the permutation table is a permutation: digits that differ
/// stay apart.
pub proof fn lemma_permuted_injective(place: nat, x: u8, y: u8)
    requires
        x < 10,
        y < 10,
        x != y,
    ensures
        permuted(place, x) != permuted(place, y),
{
}

/// Two digits that differ, at neighbouring places, compose to something
/// else once they are exchanged.
pub proof fn lemma_neighbours_anti_symmetric(place: nat, x: u8, y: u8)
    requires
        x < 10,
        y < 10,
        x != y,
    ensures
        compose(permuted(place, x), permuted(place + 1, y)) != compose(
            permuted(place, y),
            permuted(place + 1, x),
        ),
{
    let row = place % 8;
    assert((place + 1) % 8 == (row + 1) % 8);
}

/// Digits fold into a digit.
pub proof fn lemma_folded_is_digit(digits: Seq<u8>, offset: nat)
    requires
        are_digits(digits),
    ensures
        folded(digits, offset) < 10,
    decreases digits.len(),
{
    if digits.len() > 0 {
        lemma_folded_is_digit(digits.drop_first(), offset);
        lemma_group_tables(
            folded(digits.drop_first(), offset),
            permuted((offset + digits.len() - 1) as nat, digits[0]),
            0,
        );
        lemma_group_tables(digits[0], 0, (offset + digits.len() - 1) as nat);
    }
}

/// With one more digit at the right end, at place 0, the fold is that digit
/// composed with the fold of the others, which stand one place higher.
pub proof fn lemma_folded_with_last(digits: Seq<u8>, last: u8)
    requires
        are_digits(digits),
        last < 10,
    ensures
        folded(digits.push(last), 0) == compose(last, folded(digits, 1)),
    decreases digits.len(),
{
    let all = digits.push(last);
    lemma_group_tables(last, 0, 0);
    if digits.len() == 0 {
        assert(all.drop_first() =~= digits);
        assert(folded(all, 0) == compose(folded(digits, 0), permuted(0, last)));
    } else {
        let rest = digits.drop_first();
        let turned = permuted(digits.len(), digits[0]);
        assert(all.drop_first() =~= rest.push(last));
        assert(folded(all, 0) == compose(folded(rest.push(last), 0), turned));
        assert(folded(digits, 1) == compose(folded(rest, 1), turned));
        lemma_folded_with_last(rest, last);
        lemma_folded_is_digit(rest, 1);
        lemma_group_tables(digits[0], 0, digits.len());
        lemma_compose_associative(last, folded(rest, 1), turned);
    }
}

/// The check digit makes the digits valid.
pub proof fn lemma_check_digit_is_valid(digits: Seq<u8>)
    requires
        are_digits(digits),
    ensures
        check_digit(digits) < 10,
        is_valid(digits.push(check_digit(digits))),
{
    lemma_folded_is_digit(digits, 1);
    lemma_group_tables(folded(digits, 1), 0, 0);
    lemma_folded_with_last(digits, check_digit(digits));
}

/// One digit changed changes what the digits fold into.
pub proof fn lemma_folded_detects_substitution(digits: Seq<u8>, offset: nat, at: int, digit: u8)
    requires
        are_digits(digits),
        0 <= at < digits.len(),
        digit < 10,
        digit != digits[at],
    ensures
        folded(digits.update(at, digit), offset) != folded(digits, offset),
    decreases digits.len(),
{
    let changed = digits.update(at, digit);
    let rest = digits.drop_first();
    let place = (offset + digits.len() - 1) as nat;
    lemma_folded_is_digit(rest, offset);
    if at == 0 {
        assert(changed.drop_first() =~= rest);
        lemma_permuted_injective(place, digit, digits[0]);
        lemma_group_tables(digit, digits[0], place);
        lemma_group_tables(digits[0], 0, place);
        lemma_compose_cancels(
            folded(rest, offset),
            permuted(place, digit),
            permuted(place, digits[0]),
        );
    } else {
        assert(changed.drop_first() =~= rest.update(at - 1, digit));
        lemma_folded_detects_substitution(rest, offset, at - 1, digit);
        lemma_folded_is_digit(rest.update(at - 1, digit), offset);
        lemma_group_tables(digits[0], 0, place);
        lemma_compose_cancels(
            permuted(place, digits[0]),
            folded(rest.update(at - 1, digit), offset),
            folded(rest, offset),
        );
    }
}

/// Two neighbours that differ, exchanged, change what the digits fold into.
pub proof fn lemma_folded_detects_transposition(digits: Seq<u8>, offset: nat, at: int)
    requires
        are_digits(digits),
        0 <= at,
        at + 1 < digits.len(),
        digits[at] != digits[at + 1],
    ensures
        folded(with_neighbours_exchanged(digits, at), offset) != folded(digits, offset),
    decreases digits.len(),
{
    let changed = with_neighbours_exchanged(digits, at);
    let rest = digits.drop_first();
    let place = (offset + digits.len() - 1) as nat;
    lemma_group_tables(digits[0], 0, place);
    if at == 0 {
        let tail = rest.drop_first();
        let below = (place - 1) as nat;
        let (x, y) = (digits[0], digits[1]);
        let state = folded(tail, offset);
        assert(changed.drop_first().drop_first() =~= tail);
        assert(folded(rest, offset) == compose(state, permuted(below, y)));
        assert(folded(changed.drop_first(), offset) == compose(state, permuted(below, x)));
        assert(folded(digits, offset) == compose(folded(rest, offset), permuted(place, x)));
        assert(folded(changed, offset) == compose(
            folded(changed.drop_first(), offset),
            permuted(place, y),
        ));
        assert(below + 1 == place);
        lemma_folded_is_digit(tail, offset);
        lemma_group_tables(x, y, place);
        lemma_group_tables(x, y, below);
        lemma_group_tables(y, x, place);
        lemma_compose_associative(state, permuted(below, y), permuted(place, x));
        lemma_compose_associative(state, permuted(below, x), permuted(place, y));
        lemma_neighbours_anti_symmetric(below, x, y);
        lemma_group_tables(permuted(below, y), permuted(place, x), 0);
        lemma_group_tables(permuted(below, x), permuted(place, y), 0);
        lemma_compose_cancels(
            state,
            compose(permuted(below, y), permuted(place, x)),
            compose(permuted(below, x), permuted(place, y)),
        );
    } else {
        assert(changed.drop_first() =~= with_neighbours_exchanged(rest, at - 1));
        lemma_folded_detects_transposition(rest, offset, at - 1);
        lemma_folded_is_digit(rest, offset);
        assert(are_digits(with_neighbours_exchanged(rest, at - 1)));
        lemma_folded_is_digit(with_neighbours_exchanged(rest, at - 1), offset);
        lemma_compose_cancels(
            permuted(place, digits[0]),
            folded(with_neighbours_exchanged(rest, at - 1), offset),
            folded(rest, offset),
        );
    }
}

/// A string has no first character that is no digit exactly if all its
/// characters are digits; and where the characters before `at` are digits
/// and the one at `at` is none, that one is the first.
pub proof fn lemma_first_non_digit(s: Seq<char>, at: int)
    ensures
        first_non_digit(s) is None <==> all_decimal_digits(s),
        0 <= at < s.len() && all_decimal_digits(s.take(at)) && !is_decimal_digit(s[at])
            ==> first_non_digit(s) == Some(s[at]),
    decreases s.len(),
{
    if s.len() > 0 {
        let rest = s.drop_first();
        lemma_first_non_digit(rest, at - 1);
        if all_decimal_digits(rest) && is_decimal_digit(s[0]) {
            assert forall|i: int| 0 <= i < s.len() implies is_decimal_digit(#[trigger] s[i]) by {
                if i > 0 {
                    assert(s[i] == rest[i - 1]);
                }
            }
        }
        if all_decimal_digits(s) {
            assert(is_decimal_digit(s[0]));
            assert forall|i: int| 0 <= i < rest.len() implies is_decimal_digit(
                #[trigger] rest[i],
            ) by {
                assert(rest[i] == s[i + 1]);
            }
        }
        if 0 < at < s.len() && all_decimal_digits(s.take(at)) && !is_decimal_digit(s[at]) {
            assert(s.take(at)[0] == s[0]);
            assert(rest.take(at - 1) =~= s.take(at).drop_first());
            assert forall|i: int| 0 <= i < at - 1 implies is_decimal_digit(
                #[trigger] rest.take(at - 1)[i],
            ) by {
                assert(rest.take(at - 1)[i] == s.take(at)[i + 1]);
            }
        }
    }
}

/// The digits of a string of decimal digits are digits, and a string that
/// holds such digits only, and at least one, has them as its digits.
pub proof fn lemma_digits_of(s: Seq<char>)
    requires
        all_decimal_digits(s),
    ensures
        are_digits(digits_of(s)),
        s.len() > 0 ==> string_to_digits_spec(s) == Ok::<Seq<u8>, VerhoeffError>(digits_of(s)),
{
    lemma_first_non_digit(s, 0);
    assert forall|i: int| 0 <= i < s.len() implies #[trigger] digits_of(s)[i] < 10 by {
        assert(is_decimal_digit(s[i]));
    }
}

/// Folds digits from the right, the rightmost one at place `offset`.
fn fold_digits(digits: &[u8], offset: usize) -> (state: u8)
    requires
        are_digits(digits@),
        offset <= 1,
    ensures
        state == folded(digits@, offset as nat),
        state < 10,
{
    let n = digits.len();
    let mut c: u8 = 0;
    let mut i: usize = 0;
    while i < n
        invariant
            n == digits.len(),
            i <= n,
            offset <= 1,
            are_digits(digits@),
            c == folded(digits@.skip(n - i), offset as nat),
            c < 10,
        decreases n - i,
    {
        let digit = digits[n - 1 - i];
        let row = (i + offset) % 8;
        proof {
            let done = digits@.skip(n - i);
            let next = digits@.skip(n - 1 - i);
            assert(next.drop_first() =~= done);
            assert(next[0] == digit);
            assert(digit < 10);
            lemma_group_tables(digit, 0, (i + offset) as nat);
            lemma_group_tables(c, permuted((i + offset) as nat, digit), 0);
        }
        let turned = P_TABLE[row][digit as usize];
        c = D_TABLE[c as usize][turned as usize];
        i += 1;
    }
    assert(digits@.skip(0) =~= digits@);
    c
}

/// The digits of a string that holds decimal digits only.
///
/// Fails with [`VerhoeffError::EmptyInput`] on the empty string, and with
/// [`VerhoeffError::InvalidCharacter`], which holds the first character
/// that is no digit, where there is one.
pub fn string_to_digits(s: &str) -> (result: Result<Vec<u8>, VerhoeffError>)
    ensures
        match result {
            Ok(digits) => string_to_digits_spec(s@) == Ok::<Seq<u8>, VerhoeffError>(digits@)
                && are_digits(digits@),
            Err(e) => string_to_digits_spec(s@) == Err::<Seq<u8>, VerhoeffError>(e),
        },
{
    if s.is_empty() {
        return Err(VerhoeffError::EmptyInput);
    }
    let mut digits: Vec<u8> = Vec::new();
    for c in it: s.chars()
        invariant
            it.seq() == s@,
            all_decimal_digits(s@.take(it.index())),
            digits@ == digits_of(s@.take(it.index())),
    {
        let ghost at = it.index();
        match to_digit(c) {
            Some(d) => {
                digits.push(d);
                proof {
                    assert(s@.take(at + 1) =~= s@.take(at).push(c));
                    assert(digits_of(s@.take(at + 1)) =~= digits_of(s@.take(at)).push(d));
                }
            },
            None => {
                proof {
                    lemma_first_non_digit(s@, at);
                }
                return Err(VerhoeffError::InvalidCharacter(c));
            },
        }
    }
    proof {
        assert(s@.take(s@.len() as int) =~= s@);
        lemma_digits_of(s@);
    }
    Ok(digits)
}

/// The check digit for a string of decimal digits that holds none yet.
///
/// The digits are folded from the right, the rightmost at place 1; the
/// check digit is the inverse of what they fold into.
pub fn calculate_checksum(input: &str) -> (result: Result<u8, MatterPayloadError>)
    ensures
        result == calculate_checksum_spec(input@),
        result matches Ok(digit) ==> digit < 10,
{
    let digits = match string_to_digits(input) {
        Ok(digits) => digits,
        Err(e) => {
            return Err(MatterPayloadError::Verhoeff(e));
        },
    };
    let c = fold_digits(digits.as_slice(), 1);
    proof {
        lemma_group_tables(c, 0, 0);
    }
    Ok(INV_TABLE[c as usize])
}

/// Whether a string of decimal digits, the last of which is its check
/// digit, is valid.
///
/// The digits are folded from the right as in [`calculate_checksum`], but
/// the rightmost, the check digit, stands at place 0. The string is valid
/// if they fold into 0.
pub fn validate(input: &str) -> (result: Result<bool, MatterPayloadError>)
    ensures
        result == validate_spec(input@),
{
    let digits = match string_to_digits(input) {
        Ok(digits) => digits,
        Err(e) => {
            return Err(MatterPayloadError::Verhoeff(e));
        },
    };
    let c = fold_digits(digits.as_slice(), 0);
    Ok(c == 0)
}

/// The string with its check digit appended.
pub fn append_checksum(input: &str) -> (result: Result<String, MatterPayloadError>)
    ensures
        match result {
            Ok(code) => calculate_checksum_spec(input@) is Ok && code@ == with_check_digit(
                input@,
            ),
            Err(e) => calculate_checksum_spec(input@) == Err::<u8, MatterPayloadError>(e),
        },
{
    let checksum = match calculate_checksum(input) {
        Ok(checksum) => checksum,
        Err(e) => {
            return Err(e);
        },
    };
    let mut code = input.to_owned();
    code.push(from_digit(checksum));
    Ok(code)
}

/// One digit of a string changed is one of its digits changed.
proof fn lemma_digits_of_update(s: Seq<char>, at: int, digit: char)
    requires
        all_decimal_digits(s),
        0 <= at < s.len(),
        is_decimal_digit(digit),
    ensures
        all_decimal_digits(s.update(at, digit)),
        digits_of(s.update(at, digit)) == digits_of(s).update(at, digit_value(digit)),
        digit != s[at] ==> digit_value(digit) != digits_of(s)[at],
{
    assert(is_decimal_digit(s[at]));
    assert forall|i: int| 0 <= i < s.len() implies is_decimal_digit(
        #[trigger] s.update(at, digit)[i],
    ) by {
        assert(is_decimal_digit(s[i]));
    }
    assert(digits_of(s.update(at, digit)) =~= digits_of(s).update(at, digit_value(digit)));
}

/// A valid string in which one digit is replaced by another is not valid.
pub proof fn lemma_validate_detects_substitution(code: Seq<char>, at: int, digit: char)
    requires
        validate_spec(code) == Ok::<bool, MatterPayloadError>(true),
        0 <= at < code.len(),
        is_decimal_digit(digit),
        digit != code[at],
    ensures
        validate_spec(code.update(at, digit)) == Ok::<bool, MatterPayloadError>(false),
{
    lemma_first_non_digit(code, 0);
    lemma_digits_of(code);
    lemma_digits_of_update(code, at, digit);
    lemma_digits_of(code.update(at, digit));
    lemma_folded_detects_substitution(digits_of(code), 0, at, digit_value(digit));
}

/// A valid string in which two neighbours that differ are exchanged is not
/// valid.
pub proof fn lemma_validate_detects_transposition(code: Seq<char>, at: int)
    requires
        validate_spec(code) == Ok::<bool, MatterPayloadError>(true),
        0 <= at,
        at + 1 < code.len(),
        code[at] != code[at + 1],
    ensures
        validate_spec(with_neighbours_exchanged(code, at)) == Ok::<bool, MatterPayloadError>(
            false,
        ),
{
    lemma_first_non_digit(code, 0);
    lemma_digits_of(code);
    assert(is_decimal_digit(code[at]) && is_decimal_digit(code[at + 1]));
    lemma_digits_of_update(code, at, code[at + 1]);
    lemma_digits_of_update(code.update(at, code[at + 1]), at + 1, code[at]);
    lemma_digits_of(with_neighbours_exchanged(code, at));
    assert(digits_of(with_neighbours_exchanged(code, at)) == with_neighbours_exchanged(
        digits_of(code),
        at,
    ));
    lemma_folded_detects_transposition(digits_of(code), 0, at);
}

/// A string of digits with its check digit appended is valid.
pub proof fn lemma_with_check_digit_validates(base: Seq<char>)
    requires
        base.len() > 0,
        all_decimal_digits(base),
    ensures
        all_decimal_digits(with_check_digit(base)),
        validate_spec(with_check_digit(base)) == Ok::<bool, MatterPayloadError>(true),
{
    let full = with_check_digit(base);
    let check = check_digit(digits_of(base));
    lemma_digits_of(base);
    lemma_check_digit_is_valid(digits_of(base));
    assert(is_decimal_digit(digit_char(check)) && digit_value(digit_char(check)) == check);
    assert forall|i: int| 0 <= i < full.len() implies is_decimal_digit(#[trigger] full[i]) by {
        if i < base.len() {
            assert(is_decimal_digit(base[i]));
        }
    }
    assert(digits_of(full) =~= digits_of(base).push(check));
    lemma_digits_of(full);
}

/// The check digit notices every single wrong digit and every exchange of
/// two neighbours that differ.
///
/// Take a string of digits and append its check digit. The result is
/// valid. It is no longer valid once any one digit of it, the check digit
/// too, is replaced by another digit, nor once any two neighbouring digits
/// that differ are exchanged.
pub proof fn lemma_check_digit_detects_errors(base: Seq<char>)
    requires
        base.len() > 0,
        all_decimal_digits(base),
    ensures
        validate_spec(with_check_digit(base)) == Ok::<bool, MatterPayloadError>(true),
        forall|at: int, digit: char|
            0 <= at < with_check_digit(base).len() && is_decimal_digit(digit) && digit
                != with_check_digit(base)[at] ==> validate_spec(
                #[trigger] with_check_digit(base).update(at, digit),
            ) == Ok::<bool, MatterPayloadError>(false),
        forall|at: int|
            0 <= at && at + 1 < with_check_digit(base).len() && with_check_digit(base)[at]
                != with_check_digit(base)[at + 1] ==> validate_spec(
                #[trigger] with_neighbours_exchanged(with_check_digit(base), at),
            ) == Ok::<bool, MatterPayloadError>(false),
{
    let full = with_check_digit(base);
    lemma_with_check_digit_validates(base);
    assert forall|at: int, digit: char|
        0 <= at < full.len() && is_decimal_digit(digit) && digit != full[at] implies validate_spec(
        #[trigger] full.update(at, digit),
    ) == Ok::<bool, MatterPayloadError>(false) by {
        lemma_validate_detects_substitution(full, at, digit);
    }
    assert forall|at: int|
        0 <= at && at + 1 < full.len() && full[at] != full[at + 1] implies validate_spec(
        #[trigger] with_neighbours_exchanged(full, at),
    ) == Ok::<bool, MatterPayloadError>(false) by {
        lemma_validate_detects_transposition(full, at);
    }
}

} // verus!
