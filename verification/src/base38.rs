//! The Base38 text encoding of bytes.
//!
//! Bytes are taken three at a time. A chunk is read as a little-endian number
//! and written in radix 38, least significant symbol first: one byte gives two
//! symbols, two bytes give four, three bytes give five. Decoding takes the
//! symbols five at a time and goes the other way.

use crate::error::{Base38DecodeError, MatterPayloadError};
use crate::text::chars_of;
use vstd::prelude::*;

verus! {

/// The alphabet: the symbol of each digit of radix 38.
pub const CODES: [char; 38] = [
    '0',
    '1',
    '2',
    '3',
    '4',
    '5',
    '6',
    '7',
    '8',
    '9',
    'A',
    'B',
    'C',
    'D',
    'E',
    'F',
    'G',
    'H',
    'I',
    'J',
    'K',
    'L',
    'M',
    'N',
    'O',
    'P',
    'Q',
    'R',
    'S',
    'T',
    'U',
    'V',
    'W',
    'X',
    'Y',
    'Z',
    '-',
    '.',
];

/// The radix: the number of symbols in the alphabet.
pub const RADIX: u64 = 38;

/// The number of symbols that stand for a chunk of one, two and three bytes.
pub const BASE38_CHARS_NEEDED_IN_CHUNK: [usize; 3] = [2, 4, 5];

/// The number of bytes in a chunk, but for the last one, which may have fewer.
pub const MAX_BYTES_IN_CHUNK: usize = 3;

/// The number of symbols in a chunk, but for the last one.
pub const MAX_ENCODED_CHARS_IN_CHUNK: usize = 5;

/// The symbol of a digit of radix 38.
pub open spec fn symbol(digit: nat) -> char
    recommends
        digit < 38,
{
    CODES[digit as int]
}

/// The digit that a symbol of the alphabet stands for; `None` for any other
/// character.
pub open spec fn symbol_value(c: char) -> Option<u64> {
    if '0' <= c <= '9' {
        Some((c as int - '0' as int) as u64)
    } else if 'A' <= c <= 'Z' {
        Some((c as int - 'A' as int + 10) as u64)
    } else if c == '-' {
        Some(36)
    } else if c == '.' {
        Some(37)
    } else {
        None
    }
}

/// The digit of a symbol, and 0 for a character outside the alphabet.
pub open spec fn symbol_digit(c: char) -> nat {
    match symbol_value(c) {
        Some(digit) => digit as nat,
        None => 0,
    }
}

/// The number that bytes spell, the least significant byte first.
pub open spec fn le_value(bytes: Seq<u8>) -> nat
    decreases bytes.len(),
{
    if bytes.len() == 0 {
        0
    } else {
        bytes[0] as nat + 256 * le_value(bytes.drop_first())
    }
}

/// The lowest `count` bytes of a number, the least significant first.
pub open spec fn le_bytes(value: nat, count: nat) -> Seq<u8>
    decreases count,
{
    if count == 0 {
        Seq::empty()
    } else {
        seq![(value % 256) as u8] + le_bytes(value / 256, (count - 1) as nat)
    }
}

/// The lowest `count` digits of a number in radix 38, as symbols, the least
/// significant first.
pub open spec fn symbols_of(value: nat, count: nat) -> Seq<char>
    decreases count,
{
    if count == 0 {
        Seq::empty()
    } else {
        seq![symbol(value % 38)] + symbols_of(value / 38, (count - 1) as nat)
    }
}

/// The number that symbols spell in radix 38, the least significant first.
pub open spec fn symbols_value(symbols: Seq<char>) -> nat
    decreases symbols.len(),
{
    if symbols.len() == 0 {
        0
    } else {
        symbol_digit(symbols[0]) + 38 * symbols_value(symbols.drop_first())
    }
}

/// 38 to the power of `exponent`.
pub open spec fn pow38(exponent: nat) -> nat
    decreases exponent,
{
    if exponent == 0 {
        1
    } else {
        38 * pow38((exponent - 1) as nat)
    }
}

/// 256 to the power of `exponent`: the first number that `exponent` bytes
/// cannot hold.
pub open spec fn pow256(exponent: nat) -> nat
    decreases exponent,
{
    if exponent == 0 {
        1
    } else {
        256 * pow256((exponent - 1) as nat)
    }
}

/// The number of symbols that stand for a chunk of `count` bytes.
pub open spec fn symbols_for_bytes(count: nat) -> nat
    recommends
        1 <= count <= 3,
{
    BASE38_CHARS_NEEDED_IN_CHUNK[count - 1] as nat
}

/// The number of bytes that a chunk of `count` symbols stands for, where
/// there is one.
pub open spec fn bytes_for_symbols(count: nat) -> Option<usize> {
    if count == 2 {
        Some(1)
    } else if count == 4 {
        Some(2)
    } else if count == 5 {
        Some(3)
    } else {
        None
    }
}

/// The symbols of one chunk of up to three bytes.
pub open spec fn encode_chunk(bytes: Seq<u8>) -> Seq<char>
    recommends
        1 <= bytes.len() <= 3,
{
    symbols_of(le_value(bytes), symbols_for_bytes(bytes.len()))
}

/// The Base38 text of bytes.
pub open spec fn encode_spec(bytes: Seq<u8>) -> Seq<char>
    decreases bytes.len(),
{
    if bytes.len() == 0 {
        Seq::empty()
    } else if bytes.len() <= 3 {
        encode_chunk(bytes)
    } else {
        encode_chunk(bytes.take(3)) + encode_spec(bytes.skip(3))
    }
}

/// The last character of a chunk that is no symbol of the alphabet, if there
/// is one.
pub open spec fn last_invalid_symbol(chunk: Seq<char>) -> Option<char>
    decreases chunk.len(),
{
    if chunk.len() == 0 {
        None
    } else if symbol_value(chunk.last()) is None {
        Some(chunk.last())
    } else {
        last_invalid_symbol(chunk.drop_last())
    }
}

/// The bytes of one chunk of up to five symbols, or why it has none: a
/// character outside the alphabet, else a length that no chunk has, else a
/// number that the bytes cannot hold.
pub open spec fn decode_chunk(chunk: Seq<char>) -> Result<Seq<u8>, Base38DecodeError>
    recommends
        1 <= chunk.len() <= 5,
{
    match last_invalid_symbol(chunk) {
        Some(c) => Err(Base38DecodeError::InvalidCharacter(c)),
        None => match bytes_for_symbols(chunk.len()) {
            None => Err(Base38DecodeError::InvalidChunkLength(chunk.len() as usize)),
            Some(count) => {
                let value = symbols_value(chunk);
                if value >= pow256(count as nat) {
                    Err(
                        Base38DecodeError::ValueOutOfRange {
                            value: value as u64,
                            digits: chunk.len() as usize,
                            expected_bytes: count,
                        },
                    )
                } else {
                    Ok(le_bytes(value, count as nat))
                }
            },
        },
    }
}

/// The bytes of a Base38 text, or the failure of its first chunk that has
/// none.
pub open spec fn decode_spec(symbols: Seq<char>) -> Result<Seq<u8>, Base38DecodeError>
    decreases symbols.len(),
{
    if symbols.len() == 0 {
        Ok(Seq::empty())
    } else if symbols.len() <= 5 {
        decode_chunk(symbols)
    } else {
        match decode_chunk(symbols.take(5)) {
            Err(e) => Err(e),
            Ok(bytes) => match decode_spec(symbols.skip(5)) {
                Err(e) => Err(e),
                Ok(rest) => Ok(bytes + rest),
            },
        }
    }
}

/// The alphabet and `symbol_value` agree: a digit's symbol has that digit,
/// and a character that has a digit is that digit's symbol.
pub proof fn lemma_alphabet(digit: nat, c: char)
    ensures
        digit < 38 ==> symbol_value(symbol(digit)) == Some(digit as u64),
        symbol_value(c) matches Some(d) ==> d < 38 && symbol(d as nat) == c,
{
}

/// The first powers of 38 and of 256. Two symbols can spell any byte, four
/// any two bytes, five any three.
pub proof fn lemma_powers()
    ensures
        pow38(0) == 1,
        pow38(1) == 38,
        pow38(2) == 1444,
        pow38(3) == 54872,
        pow38(4) == 2085136,
        pow38(5) == 79235168,
        pow256(0) == 1,
        pow256(1) == 0x100,
        pow256(2) == 0x1_0000,
        pow256(3) == 0x100_0000,
{
    reveal_with_fuel(pow38, 6);
    reveal_with_fuel(pow256, 4);
}

/// Bytes spell a number below 256 to the power of their count.
pub proof fn lemma_le_value_bound(bytes: Seq<u8>)
    ensures
        le_value(bytes) < pow256(bytes.len()),
    decreases bytes.len(),
{
    if bytes.len() > 0 {
        lemma_le_value_bound(bytes.drop_first());
    }
}

/// A number that `count` bytes can hold, written in bytes and read again,
/// is the number.
pub proof fn lemma_le_value_of_bytes(value: nat, count: nat)
    requires
        value < pow256(count),
    ensures
        le_bytes(value, count).len() == count,
        le_value(le_bytes(value, count)) == value,
    decreases count,
{
    if count > 0 {
        let bytes = le_bytes(value, count);
        lemma_le_value_of_bytes(value / 256, (count - 1) as nat);
        assert(bytes.drop_first() =~= le_bytes(value / 256, (count - 1) as nat));
    }
}

/// Bytes, read as a number and written again in as many bytes, are the
/// bytes.
pub proof fn lemma_le_bytes_of_value(bytes: Seq<u8>)
    ensures
        le_bytes(le_value(bytes), bytes.len()) == bytes,
    decreases bytes.len(),
{
    if bytes.len() > 0 {
        let rest = bytes.drop_first();
        lemma_le_bytes_of_value(rest);
        let value = le_value(bytes);
        assert(value % 256 == bytes[0] && value / 256 == le_value(rest));
        assert(le_bytes(value, bytes.len()) =~= seq![bytes[0]] + le_bytes(
            le_value(rest),
            rest.len(),
        ));
        assert(seq![bytes[0]] + rest =~= bytes);
    }
}

/// A number below 38 to the power of `count`, written in `count` symbols
/// and read again, is the number; and what is written are symbols of the
/// alphabet.
pub proof fn lemma_symbols_value_of_symbols(value: nat, count: nat)
    requires
        value < pow38(count),
    ensures
        symbols_of(value, count).len() == count,
        symbols_value(symbols_of(value, count)) == value,
        last_invalid_symbol(symbols_of(value, count)) is None,
    decreases count,
{
    if count > 0 {
        let symbols = symbols_of(value, count);
        let rest = symbols_of(value / 38, (count - 1) as nat);
        lemma_symbols_value_of_symbols(value / 38, (count - 1) as nat);
        lemma_alphabet(value % 38, '0');
        assert(symbols.drop_first() =~= rest);
        assert(symbols[0] == symbol(value % 38));
        lemma_no_invalid_symbol(symbols);
        lemma_no_invalid_symbol(rest);
        assert forall|i: int| 0 <= i < symbols.len() implies symbol_value(
            #[trigger] symbols[i],
        ) is Some by {
            if i > 0 {
                assert(symbols[i] == rest[i - 1]);
            }
        }
    }
}

/// A chunk has no last invalid symbol exactly if all its characters are
/// symbols of the alphabet; and where the characters after `at` are symbols
/// and the one at `at` is none, that one is the last.
pub proof fn lemma_no_invalid_symbol(chunk: Seq<char>)
    ensures
        last_invalid_symbol(chunk) is None <==> forall|i: int|
            0 <= i < chunk.len() ==> symbol_value(#[trigger] chunk[i]) is Some,
        forall|at: int|
            0 <= at < chunk.len() && symbol_value(chunk[at]) is None && (forall|i: int|
                at < i < chunk.len() ==> symbol_value(#[trigger] chunk[i]) is Some)
                ==> last_invalid_symbol(chunk) == Some(chunk[at]),
    decreases chunk.len(),
{
    if chunk.len() > 0 {
        let init = chunk.drop_last();
        lemma_no_invalid_symbol(init);
        if symbol_value(chunk.last()) is Some {
            if last_invalid_symbol(init) is None {
                assert forall|i: int| 0 <= i < chunk.len() implies symbol_value(
                    #[trigger] chunk[i],
                ) is Some by {
                    if i < init.len() {
                        assert(chunk[i] == init[i]);
                    }
                }
            }
            if forall|i: int| 0 <= i < chunk.len() ==> symbol_value(#[trigger] chunk[i]) is Some {
                assert forall|i: int| 0 <= i < init.len() implies symbol_value(
                    #[trigger] init[i],
                ) is Some by {
                    assert(init[i] == chunk[i]);
                }
            }
            assert forall|at: int|
                0 <= at < chunk.len() && symbol_value(chunk[at]) is None && (forall|i: int|
                    at < i < chunk.len() ==> symbol_value(
                        #[trigger] chunk[i],
                    ) is Some) implies last_invalid_symbol(chunk) == Some(chunk[at]) by {
                assert(init[at] == chunk[at]);
                assert forall|i: int| at < i < init.len() implies symbol_value(
                    #[trigger] init[i],
                ) is Some by {
                    assert(init[i] == chunk[i]);
                }
            }
        } else {
            assert(symbol_value(chunk[chunk.len() - 1]) is None);
        }
    }
}

/// One chunk of bytes that is encoded and decoded again is the chunk.
pub proof fn lemma_chunk_round_trip(bytes: Seq<u8>)
    requires
        1 <= bytes.len() <= 3,
    ensures
        encode_chunk(bytes).len() == symbols_for_bytes(bytes.len()),
        decode_chunk(encode_chunk(bytes)) == Ok::<Seq<u8>, Base38DecodeError>(bytes),
{
    let value = le_value(bytes);
    let count = symbols_for_bytes(bytes.len());
    lemma_powers();
    lemma_le_value_bound(bytes);
    lemma_symbols_value_of_symbols(value, count);
    lemma_le_bytes_of_value(bytes);
}

/// Bytes that are encoded and decoded again are the bytes they were. This
/// holds of every sequence of bytes, the empty one too.
pub proof fn lemma_round_trip(bytes: Seq<u8>)
    ensures
        decode_spec(encode_spec(bytes)) == Ok::<Seq<u8>, Base38DecodeError>(bytes),
    decreases bytes.len(),
{
    if bytes.len() == 0 {
        assert(bytes =~= Seq::<u8>::empty());
    } else if bytes.len() <= 3 {
        lemma_chunk_round_trip(bytes);
    } else {
        let first = bytes.take(3);
        let rest = bytes.skip(3);
        let text = encode_spec(bytes);
        lemma_chunk_round_trip(first);
        lemma_round_trip(rest);
        lemma_encode_len(rest);
        assert(text.take(5) =~= encode_chunk(first));
        assert(text.skip(5) =~= encode_spec(rest));
        assert(first + rest =~= bytes);
    }
}

/// Bytes encode to at least as many symbols, and to none only if there are
/// none.
pub proof fn lemma_encode_len(bytes: Seq<u8>)
    ensures
        encode_spec(bytes).len() >= bytes.len(),
    decreases bytes.len(),
{
    if bytes.len() == 0 {
    } else if bytes.len() <= 3 {
        lemma_chunk_round_trip(bytes);
    } else {
        lemma_chunk_round_trip(bytes.take(3));
        lemma_encode_len(bytes.skip(3));
    }
}

/// A byte set into a number above the bytes that the number holds adds its
/// value at that place.
proof fn lemma_place_byte(value: u64, byte: u8, index: usize)
    requires
        index <= 2,
        value < pow256(index as nat),
    ensures
        value | ((byte as u64) << (index * 8)) == value + byte * pow256(index as nat),
        value + byte * pow256(index as nat) < pow256((index + 1) as nat),
{
    lemma_powers();
    let wide = byte as u64;
    if index == 0 {
        assert(value | (wide << 0) == value + wide) by (bit_vector)
            requires
                value < 1,
        ;
    } else if index == 1 {
        assert(value | (wide << 8) == value + wide * 0x100) by (bit_vector)
            requires
                value < 0x100,
                wide < 0x100,
        ;
    } else {
        assert(value | (wide << 16) == value + wide * 0x1_0000) by (bit_vector)
            requires
                value < 0x1_0000,
                wide < 0x100,
        ;
    }
}

/// One more byte at the high end adds its value at that place.
proof fn lemma_le_value_push(bytes: Seq<u8>, byte: u8)
    ensures
        le_value(bytes.push(byte)) == le_value(bytes) + byte * pow256(bytes.len()),
    decreases bytes.len(),
{
    let all = bytes.push(byte);
    if bytes.len() == 0 {
        assert(all.drop_first() =~= Seq::<u8>::empty());
        assert(le_value(all) == byte) by {
            reveal_with_fuel(le_value, 2);
        }
        assert(byte * pow256(bytes.len()) == byte) by (nonlinear_arith)
            requires
                pow256(bytes.len()) == 1,
        ;
    } else {
        let rest = bytes.drop_first();
        assert(all.drop_first() =~= rest.push(byte));
        lemma_le_value_push(rest, byte);
        let place = pow256(rest.len());
        assert(all[0] == bytes[0]);
        assert(le_value(all) == bytes[0] + 256 * le_value(rest.push(byte)));
        assert(le_value(bytes) == bytes[0] + 256 * le_value(rest));
        assert(pow256(bytes.len()) == 256 * place);
        assert(256 * (le_value(rest) + byte * place) == 256 * le_value(rest) + byte * (256
            * place)) by (nonlinear_arith);
    }
}

/// The powers of 38 grow.
proof fn lemma_pow38_grows(lower: nat, upper: nat)
    requires
        lower <= upper,
    ensures
        pow38(lower) <= pow38(upper),
    decreases upper,
{
    if lower < upper {
        lemma_pow38_grows(lower, (upper - 1) as nat);
    }
}

/// What the text from `start` on encodes to, in terms of its first chunk,
/// which ends at `end`, and of the text from there on; with `start == end`,
/// that the text from its end on encodes to nothing, and the text from its
/// beginning on to what all of it encodes to.
proof fn lemma_encode_from(bytes: Seq<u8>, start: int, end: int)
    requires
        0 <= start <= end <= bytes.len(),
        end == start || end == start + 3 || (end == bytes.len() && end < start + 3),
    ensures
        start < end ==> encode_spec(bytes.skip(start)) == encode_chunk(
            bytes.subrange(start, end),
        ) + encode_spec(bytes.skip(end)),
        start == bytes.len() ==> encode_spec(bytes.skip(start)) == Seq::<char>::empty(),
        start == 0 ==> bytes.skip(start) == bytes,
{
    let rest = bytes.skip(start);
    if start < end {
        assert(rest.take(end - start) =~= bytes.subrange(start, end));
        assert(rest.skip(end - start) =~= bytes.skip(end));
        if rest.len() <= 3 {
            assert(rest =~= bytes.subrange(start, end));
            assert(encode_chunk(rest) + encode_spec(bytes.skip(end)) =~= encode_chunk(rest));
        }
    }
    if start == 0 {
        assert(rest =~= bytes);
    }
}

/// What is decoded so far, followed by what the rest decodes to.
pub open spec fn decoded_then(
    done: Seq<u8>,
    rest: Result<Seq<u8>, Base38DecodeError>,
) -> Result<Seq<u8>, Base38DecodeError> {
    match rest {
        Ok(bytes) => Ok(done + bytes),
        Err(e) => Err(e),
    }
}

/// What the text from `start` on decodes to, in terms of its first chunk,
/// which ends at `end`, and of the text from there on; with `start == end`,
/// the same of the ends of the text as in `lemma_encode_from`.
proof fn lemma_decode_from(symbols: Seq<char>, done: Seq<u8>, start: int, end: int)
    requires
        0 <= start <= end <= symbols.len(),
        end == start || end == start + 5 || (end == symbols.len() && end < start + 5),
    ensures
        start < end ==> decoded_then(done, decode_spec(symbols.skip(start))) == (match decode_chunk(
            symbols.subrange(start, end),
        ) {
            Ok(bytes) => decoded_then(done + bytes, decode_spec(symbols.skip(end))),
            Err(e) => Err(e),
        }),
        start == symbols.len() ==> decoded_then(done, decode_spec(symbols.skip(start))) == Ok::<
            Seq<u8>,
            Base38DecodeError,
        >(done),
        start == 0 && done.len() == 0 ==> decoded_then(done, decode_spec(symbols.skip(start)))
            == decode_spec(symbols),
{
    let rest = symbols.skip(start);
    if start < end {
        let chunk = symbols.subrange(start, end);
        assert(rest.take(end - start) =~= chunk);
        assert(rest.skip(end - start) =~= symbols.skip(end));
        if rest.len() <= 5 {
            assert(rest =~= chunk);
        }
        match (decode_chunk(chunk), decode_spec(symbols.skip(end))) {
            (Ok(bytes), Ok(more)) => {
                assert(done + (bytes + more) =~= (done + bytes) + more);
                assert(bytes + Seq::<u8>::empty() =~= bytes);
            },
            _ => {},
        }
    }
    if start == symbols.len() {
        assert(done + Seq::<u8>::empty() =~= done);
    }
    if start == 0 && done.len() == 0 {
        assert(rest =~= symbols);
        match decode_spec(symbols) {
            Ok(all) => {
                assert(done + all =~= all);
            },
            Err(_) => {},
        }
    }
}

/// The digit of a character in the alphabet: its index in [`CODES`].
fn position(c: char) -> (digit: Option<u64>)
    ensures
        digit == symbol_value(c),
{
    let mut i: usize = 0;
    while i < 38
        invariant
            i <= 38,
            forall|j: int| 0 <= j < i ==> CODES[j] != c,
        decreases 38 - i,
    {
        if CODES[i] == c {
            proof {
                lemma_alphabet(i as nat, c);
            }
            return Some(i as u64);
        }
        i += 1;
    }
    proof {
        lemma_alphabet(0, c);
    }
    None
}

/// Appends the symbols of one chunk of one, two or three bytes.
fn encode_chunk_onto(qrcode: &mut String, chunk: &[u8])
    requires
        1 <= chunk.len() <= 3,
    ensures
        final(qrcode)@ == old(qrcode)@ + encode_chunk(chunk@),
{
    let ghost before = qrcode@;
    // Pack the chunk into one number, the first byte lowest.
    let mut value: u64 = 0;
    let mut i: usize = 0;
    proof {
        lemma_powers();
    }
    while i < chunk.len()
        invariant
            i <= chunk.len() <= 3,
            value == le_value(chunk@.take(i as int)),
            value < pow256(i as nat),
        decreases chunk.len() - i,
    {
        let byte = chunk[i];
        proof {
            lemma_place_byte(value, byte, i);
            lemma_le_value_push(chunk@.take(i as int), byte);
            assert(chunk@.take(i + 1) =~= chunk@.take(i as int).push(byte));
        }
        value = value | ((byte as u64) << (i * 8));
        i += 1;
    }
    assert(chunk@.take(chunk.len() as int) =~= chunk@);
    let chars_needed = BASE38_CHARS_NEEDED_IN_CHUNK[chunk.len() - 1];
    // Write the number in radix 38, the lowest digit first.
    let mut written: usize = 0;
    while written < chars_needed
        invariant
            written <= chars_needed,
            before + encode_chunk(chunk@) == qrcode@ + symbols_of(
                value as nat,
                (chars_needed - written) as nat,
            ),
        decreases chars_needed - written,
    {
        let remainder = (value % RADIX) as usize;
        proof {
            let left = (chars_needed - written) as nat;
            assert(symbols_of(value as nat, left) =~= seq![symbol(value as nat % 38)] + symbols_of(
                value as nat / 38,
                (left - 1) as nat,
            ));
        }
        qrcode.push(CODES[remainder]);
        value = value / RADIX;
        written += 1;
    }
}

/// Encodes bytes as Base38 text.
///
/// The bytes are taken in chunks of three, the last chunk may hold one or
/// two. Each chunk is read as a little-endian number and written in radix
/// 38, the least significant symbol first: two symbols for one byte, four
/// for two, five for three.
pub fn encode(bytes: &[u8]) -> (text: String)
    ensures
        text@ == encode_spec(bytes@),
{
    let mut qrcode = String::new();
    let mut start: usize = 0;
    proof {
        lemma_encode_from(bytes@, 0, 0);
    }
    while start < bytes.len()
        invariant
            start <= bytes.len(),
            encode_spec(bytes@) == qrcode@ + encode_spec(bytes@.skip(start as int)),
        decreases bytes.len() - start,
    {
        let end: usize = if bytes.len() - start >= MAX_BYTES_IN_CHUNK {
            start + MAX_BYTES_IN_CHUNK
        } else {
            bytes.len()
        };
        proof {
            lemma_encode_from(bytes@, start as int, end as int);
        }
        encode_chunk_onto(&mut qrcode, &bytes[start..end]);
        start = end;
    }
    proof {
        lemma_encode_from(bytes@, start as int, start as int);
    }
    qrcode
}

/// A number below `256^count` is below `1 << (8 * count)`, and the other
/// way round, for the byte counts that a chunk can have.
proof fn lemma_byte_limit(count: usize)
    requires
        1 <= count <= 3,
    ensures
        1u64 << (8 * count) == pow256(count as nat),
{
    lemma_powers();
    assert(1u64 << 8 == 0x100) by (bit_vector);
    assert(1u64 << 16 == 0x1_0000) by (bit_vector);
    assert(1u64 << 24 == 0x100_0000) by (bit_vector);
}

/// The lowest byte of a number and what is left above it.
proof fn lemma_low_byte(value: u64)
    ensures
        (value & 0xFF) == value % 256,
        (value >> 8) == value / 256,
{
    assert((value & 0xFF) == value % 256) by (bit_vector);
    assert((value >> 8) == value / 256) by (bit_vector);
}

/// Appends the bytes of one chunk of up to five symbols; appends nothing
/// where the chunk has none.
fn decode_chunk_onto(decoded_bytes: &mut Vec<u8>, chunk: &[char]) -> (result: Result<
    (),
    MatterPayloadError,
>)
    requires
        chunk.len() <= 5,
    ensures
        match result {
            Ok(()) => decode_chunk(chunk@) matches Ok(bytes) && final(decoded_bytes)@ == old(
                decoded_bytes,
            )@ + bytes,
            Err(e) => decode_chunk(chunk@) matches Err(cause) && e == MatterPayloadError::Base38(
                cause,
            ) && final(decoded_bytes)@ == old(decoded_bytes)@,
        },
{
    let ghost before = decoded_bytes@;
    // Read the chunk as a number in radix 38, from its last symbol down.
    let mut value: u64 = 0;
    let mut i: usize = chunk.len();
    proof {
        lemma_powers();
        lemma_no_invalid_symbol(chunk@);
    }
    while i > 0
        invariant
            i <= chunk.len() <= 5,
            forall|j: int| i <= j < chunk.len() ==> symbol_value(#[trigger] chunk@[j]) is Some,
            value == symbols_value(chunk@.skip(i as int)),
            value < pow38((chunk.len() - i) as nat),
        decreases i,
    {
        i -= 1;
        let c = chunk[i];
        proof {
            assert(chunk@.skip(i as int).drop_first() =~= chunk@.skip(i + 1));
            lemma_pow38_grows((chunk.len() - i) as nat, 5);
            lemma_powers();
        }
        match position(c) {
            Some(digit) => {
                value = value * RADIX + digit;
            },
            None => {
                proof {
                    lemma_no_invalid_symbol(chunk@);
                }
                return Err(MatterPayloadError::Base38(Base38DecodeError::InvalidCharacter(c)));
            },
        }
    }
    assert(chunk@.skip(0) =~= chunk@);
    let bytes_in_chunk: usize = match chunk.len() {
        2 => 1,
        4 => 2,
        5 => 3,
        len => {
            return Err(MatterPayloadError::Base38(Base38DecodeError::InvalidChunkLength(len)));
        },
    };
    proof {
        lemma_byte_limit(bytes_in_chunk);
    }
    let max_value = 1u64 << (8 * bytes_in_chunk);
    if value >= max_value {
        return Err(
            MatterPayloadError::Base38(
                Base38DecodeError::ValueOutOfRange {
                    value,
                    digits: chunk.len(),
                    expected_bytes: bytes_in_chunk,
                },
            ),
        );
    }
    // Write the number out in bytes, the lowest first.
    let mut temp_value = value;
    let mut written: usize = 0;
    while written < bytes_in_chunk
        invariant
            written <= bytes_in_chunk,
            before + le_bytes(value as nat, bytes_in_chunk as nat) == decoded_bytes@ + le_bytes(
                temp_value as nat,
                (bytes_in_chunk - written) as nat,
            ),
        decreases bytes_in_chunk - written,
    {
        proof {
            lemma_low_byte(temp_value);
            let left = (bytes_in_chunk - written) as nat;
            assert(le_bytes(temp_value as nat, left) =~= seq![(temp_value as nat % 256) as u8]
                + le_bytes(temp_value as nat / 256, (left - 1) as nat));
        }
        decoded_bytes.push((temp_value & 0xFF) as u8);
        temp_value = temp_value >> 8;
        written += 1;
    }
    Ok(())
}

/// Decodes the symbols of a Base38 text into bytes.
///
/// The symbols are taken in chunks of five, the last chunk may hold fewer.
/// A chunk fails with [`Base38DecodeError::InvalidCharacter`] where it holds
/// a character outside the alphabet (the last such character is named),
/// else with [`Base38DecodeError::InvalidChunkLength`] where it holds
/// neither two, four nor five symbols, else with
/// [`Base38DecodeError::ValueOutOfRange`] where it spells a number that its
/// bytes cannot hold. The first chunk that fails decides.
pub fn decode_symbols(symbols: &[char]) -> (result: Result<Vec<u8>, MatterPayloadError>)
    ensures
        match result {
            Ok(bytes) => decode_spec(symbols@) == Ok::<Seq<u8>, Base38DecodeError>(bytes@),
            Err(e) => decode_spec(symbols@) matches Err(cause) && e == MatterPayloadError::Base38(
                cause,
            ),
        },
{
    let mut decoded_bytes: Vec<u8> = Vec::new();
    let mut start: usize = 0;
    proof {
        lemma_decode_from(symbols@, decoded_bytes@, 0, 0);
    }
    while start < symbols.len()
        invariant
            start <= symbols.len(),
            decode_spec(symbols@) == decoded_then(
                decoded_bytes@,
                decode_spec(symbols@.skip(start as int)),
            ),
        decreases symbols.len() - start,
    {
        let end: usize = if symbols.len() - start >= MAX_ENCODED_CHARS_IN_CHUNK {
            start + MAX_ENCODED_CHARS_IN_CHUNK
        } else {
            symbols.len()
        };
        proof {
            lemma_decode_from(symbols@, decoded_bytes@, start as int, end as int);
        }
        match decode_chunk_onto(&mut decoded_bytes, &symbols[start..end]) {
            Ok(()) => {},
            Err(e) => {
                return Err(e);
            },
        }
        start = end;
    }
    proof {
        lemma_decode_from(symbols@, decoded_bytes@, start as int, start as int);
    }
    Ok(decoded_bytes)
}

/// Decodes a Base38 text into bytes: see [`decode_symbols`].
pub fn decode(s: &str) -> (result: Result<Vec<u8>, MatterPayloadError>)
    ensures
        match result {
            Ok(bytes) => decode_spec(s@) == Ok::<Seq<u8>, Base38DecodeError>(bytes@),
            Err(e) => decode_spec(s@) matches Err(cause) && e == MatterPayloadError::Base38(
                cause,
            ),
        },
{
    let chars = chars_of(s);
    decode_symbols(chars.as_slice())
}

/// Symbols of the alphabet, read as a number and written again in as many
/// symbols, are the symbols.
pub proof fn lemma_symbols_of_value(symbols: Seq<char>)
    requires
        last_invalid_symbol(symbols) is None,
    ensures
        symbols_of(symbols_value(symbols), symbols.len()) == symbols,
        symbols_value(symbols) < pow38(symbols.len()),
    decreases symbols.len(),
{
    lemma_no_invalid_symbol(symbols);
    if symbols.len() > 0 {
        let rest = symbols.drop_first();
        let value = symbols_value(symbols);
        assert forall|i: int| 0 <= i < rest.len() implies symbol_value(#[trigger] rest[i]) is Some by {
            assert(rest[i] == symbols[i + 1]);
        }
        lemma_no_invalid_symbol(rest);
        lemma_symbols_of_value(rest);
        assert(symbol_value(symbols[0]) is Some);
        lemma_alphabet(0, symbols[0]);
        assert(value % 38 == symbol_digit(symbols[0]) && value / 38 == symbols_value(rest));
        assert(symbols_of(value, symbols.len()) =~= seq![symbols[0]] + rest);
        assert(seq![symbols[0]] + rest =~= symbols);
    }
}

/// A text that decodes gives, where it is not empty, at least one byte.
proof fn lemma_decoded_is_not_empty(symbols: Seq<char>)
    requires
        symbols.len() > 0,
        decode_spec(symbols) is Ok,
    ensures
        decode_spec(symbols)->Ok_0.len() > 0,
{
    let chunk = if symbols.len() <= 5 {
        symbols
    } else {
        symbols.take(5)
    };
    let count = bytes_for_symbols(chunk.len())->0;
    lemma_powers();
    lemma_symbols_of_value(chunk);
    lemma_le_value_of_bytes(symbols_value(chunk), count as nat);
}

/// A text that decodes is the text that its bytes encode to: no two texts
/// decode to the same bytes.
pub proof fn lemma_text_round_trip(symbols: Seq<char>)
    requires
        decode_spec(symbols) is Ok,
    ensures
        encode_spec(decode_spec(symbols)->Ok_0) == symbols,
    decreases symbols.len(),
{
    let bytes = decode_spec(symbols)->Ok_0;
    lemma_powers();
    if symbols.len() == 0 {
        assert(symbols =~= Seq::<char>::empty());
    } else if symbols.len() <= 5 {
        let count = bytes_for_symbols(symbols.len())->0;
        lemma_symbols_of_value(symbols);
        lemma_le_value_of_bytes(symbols_value(symbols), count as nat);
    } else {
        let chunk = symbols.take(5);
        let rest = symbols.skip(5);
        let first = decode_chunk(chunk)->Ok_0;
        let more = decode_spec(rest)->Ok_0;
        lemma_symbols_of_value(chunk);
        lemma_le_value_of_bytes(symbols_value(chunk), 3);
        lemma_decoded_is_not_empty(rest);
        lemma_text_round_trip(rest);
        assert(bytes.take(3) =~= first);
        assert(bytes.skip(3) =~= more);
        assert(chunk + rest =~= symbols);
    }
}

} // verus!
