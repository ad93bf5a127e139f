//! Store-entry hashes and their hexadecimal text form.
//!
//! A hash is printed as lowercase hexadecimal, two digits per byte, the
//! high nibble first. Parsing accepts both lowercase and uppercase digits.
use vstd::prelude::*;

verus! {

/// Number of bytes in a store-entry hash (a blake3 digest).
pub const HASH_LEN: usize = 32;

/// Number of characters in the hexadecimal form of a hash.
pub const HEX_LEN: usize = 64;

/// The identity of a store entry: blake3 of the entry's canonical content.
#[derive(Clone, Copy, Debug, PartialEq, Eq, Hash)]
pub struct StoreEntryHash(pub [u8; HASH_LEN]);

impl View for StoreEntryHash {
    type V = Seq<u8>;

    open spec fn view(&self) -> Seq<u8> {
        self.0@
    }
}

/// Why a text is not the hexadecimal form of a hash.
#[derive(Clone, Copy, Debug, PartialEq, Eq)]
pub enum HashParseError {
    /// The text does not hold exactly `HEX_LEN` characters.
    InvalidLength { length: usize },
    /// The character at `index` is not a hexadecimal digit.
    InvalidCharacter { index: usize, character: char },
}

/// The lowercase hexadecimal digit for a value below 16.
pub open spec fn hex_digit(n: int) -> char {
    if n < 10 {
        (n + 48) as char
    } else {
        (n + 87) as char
    }
}

/// Lowercase hexadecimal text of `bytes`: two digits per byte, high nibble first.
pub open spec fn hex_encode(bytes: Seq<u8>) -> Seq<char> {
    Seq::new(
        2 * bytes.len(),
        |i: int|
            if i % 2 == 0 {
                hex_digit((bytes[i / 2] / 16) as int)
            } else {
                hex_digit((bytes[i / 2] % 16) as int)
            },
    )
}

/// The value of a hexadecimal digit of either case, or `None` for any other character.
pub open spec fn hex_value(c: char) -> Option<u8> {
    let n = c as int;
    if 48 <= n <= 57 {
        Some((n - 48) as u8)
    } else if 97 <= n <= 102 {
        Some((n - 87) as u8)
    } else if 65 <= n <= 70 {
        Some((n - 55) as u8)
    } else {
        None
    }
}

/// Every character of `s` is a hexadecimal digit.
pub open spec fn all_hex_digits(s: Seq<char>) -> bool {
    forall|i: int| 0 <= i < s.len() ==> (#[trigger] hex_value(s[i])) is Some
}

/// The bytes that the hexadecimal text `s` (made of digits only) spells.
pub open spec fn hex_decode(s: Seq<char>) -> Seq<u8> {
    Seq::new(
        s.len() / 2,
        |i: int| (16 * hex_value(s[2 * i])->0 + hex_value(s[2 * i + 1])->0) as u8,
    )
}

/// The index of the first character of `s` that is not a hexadecimal digit.
pub open spec fn first_non_hex(s: Seq<char>) -> int {
    choose|i: int|
        0 <= i < s.len() && hex_value(s[i]) is None && forall|j: int|
            0 <= j < i ==> (#[trigger] hex_value(s[j])) is Some
}

/// What parsing the text `s` as a hash gives: the bytes it spells, or the
/// first reason it is not a hash.
pub open spec fn parse_hex(s: Seq<char>) -> Result<Seq<u8>, HashParseError> {
    if s.len() != HEX_LEN {
        Err(HashParseError::InvalidLength { length: s.len() as usize })
    } else if !all_hex_digits(s) {
        let i = first_non_hex(s);
        Err(HashParseError::InvalidCharacter { index: i as usize, character: s[i] })
    } else {
        Ok(hex_decode(s))
    }
}

proof fn lemma_hex_value_of_digit(n: int)
    requires
        0 <= n < 16,
    ensures
        hex_value(hex_digit(n)) == Some(n as u8),
{
}

/// Printing a hash in hexadecimal and parsing the text back gives the same bytes.
pub proof fn lemma_hex_round_trip(bytes: Seq<u8>)
    requires
        bytes.len() == HASH_LEN,
    ensures
        parse_hex(hex_encode(bytes)) == Ok::<Seq<u8>, HashParseError>(bytes),
{
    let s = hex_encode(bytes);
    assert forall|i: int| 0 <= i < s.len() implies (#[trigger] hex_value(s[i])) is Some by {
        if i % 2 == 0 {
            lemma_hex_value_of_digit((bytes[i / 2] / 16) as int);
        } else {
            lemma_hex_value_of_digit((bytes[i / 2] % 16) as int);
        }
    }
    assert forall|k: int| 0 <= k < bytes.len() implies #[trigger] hex_decode(s)[k] == bytes[k] by {
        lemma_hex_value_of_digit((bytes[k] / 16) as int);
        lemma_hex_value_of_digit((bytes[k] % 16) as int);
        assert(s[2 * k] == hex_digit((bytes[k] / 16) as int));
        assert(s[2 * k + 1] == hex_digit((bytes[k] % 16) as int));
    }
    assert(hex_decode(s) =~= bytes);
}

/// The digits are the standard lowercase hexadecimal digits: the value `n`
/// is printed as `0`–`9` for `n < 10` and as `a`–`f` for `10 <= n < 16`.
pub proof fn lemma_hex_digit_table()
    ensures
        hex_digit(0) == '0',
        hex_digit(1) == '1',
        hex_digit(2) == '2',
        hex_digit(3) == '3',
        hex_digit(4) == '4',
        hex_digit(5) == '5',
        hex_digit(6) == '6',
        hex_digit(7) == '7',
        hex_digit(8) == '8',
        hex_digit(9) == '9',
        hex_digit(10) == 'a',
        hex_digit(11) == 'b',
        hex_digit(12) == 'c',
        hex_digit(13) == 'd',
        hex_digit(14) == 'e',
        hex_digit(15) == 'f',
{
}

/// Parsing reads `0`–`9` as 0–9, and both `a`–`f` and `A`–`F` as 10–15.
pub proof fn lemma_hex_value_table()
    ensures
        hex_value('0') == Some(0u8),
        hex_value('1') == Some(1u8),
        hex_value('2') == Some(2u8),
        hex_value('3') == Some(3u8),
        hex_value('4') == Some(4u8),
        hex_value('5') == Some(5u8),
        hex_value('6') == Some(6u8),
        hex_value('7') == Some(7u8),
        hex_value('8') == Some(8u8),
        hex_value('9') == Some(9u8),
        hex_value('a') == Some(10u8),
        hex_value('b') == Some(11u8),
        hex_value('c') == Some(12u8),
        hex_value('d') == Some(13u8),
        hex_value('e') == Some(14u8),
        hex_value('f') == Some(15u8),
        hex_value('A') == Some(10u8),
        hex_value('B') == Some(11u8),
        hex_value('C') == Some(12u8),
        hex_value('D') == Some(13u8),
        hex_value('E') == Some(14u8),
        hex_value('F') == Some(15u8),
{
}

/// Exactly the 22 hexadecimal digit characters have a value.
pub proof fn lemma_hex_value_only_digits(c: char)
    ensures
        hex_value(c) is Some <==> (c == '0' || c == '1' || c == '2' || c == '3' || c == '4' || c == '5' || c == '6' || c == '7' || c == '8' || c == '9' || c == 'a' || c == 'b' || c == 'c' || c == 'd' || c == 'e' || c == 'f' || c == 'A' || c == 'B' || c == 'C' || c == 'D' || c == 'E' || c == 'F'),
{
}

/// Every character of a printed hash is a lowercase hexadecimal digit, and
/// the two characters of each byte give back its high and its low nibble.
pub proof fn lemma_hex_encode_nibbles(bytes: Seq<u8>)
    ensures
        hex_encode(bytes).len() == 2 * bytes.len(),
        forall|i: int|
            0 <= i < hex_encode(bytes).len() ==> {
                let c = #[trigger] hex_encode(bytes)[i];
                c == '0' || c == '1' || c == '2' || c == '3' || c == '4' || c == '5' || c == '6' || c == '7' || c == '8' || c == '9' || c == 'a' || c == 'b' || c == 'c' || c == 'd' || c == 'e' || c == 'f'
            },
        forall|k: int|
            0 <= k < bytes.len() ==> hex_value(#[trigger] hex_encode(bytes)[2 * k]) == Some(
                (bytes[k] / 16) as u8,
            ) && hex_value(hex_encode(bytes)[2 * k + 1]) == Some((bytes[k] % 16) as u8),
{
    let e = hex_encode(bytes);
    assert forall|i: int| 0 <= i < e.len() implies {
        let c = #[trigger] e[i];
        c == '0' || c == '1' || c == '2' || c == '3' || c == '4' || c == '5' || c == '6' || c == '7' || c == '8' || c == '9' || c == 'a' || c == 'b' || c == 'c' || c == 'd' || c == 'e' || c == 'f'
    } by {
        lemma_hex_digit_table();
        let n: int = if i % 2 == 0 { (bytes[i / 2] / 16) as int } else { (bytes[i / 2] % 16) as int };
        assert(0 <= n < 16);
        assert(e[i] == hex_digit(n));
    }
    assert forall|k: int| 0 <= k < bytes.len() implies hex_value(#[trigger] e[2 * k]) == Some(
        (bytes[k] / 16) as u8,
    ) && hex_value(e[2 * k + 1]) == Some((bytes[k] % 16) as u8) by {
        lemma_hex_value_of_digit((bytes[k] / 16) as int);
        lemma_hex_value_of_digit((bytes[k] % 16) as int);
        assert(e[2 * k] == hex_digit((bytes[k] / 16) as int));
        assert(e[2 * k + 1] == hex_digit((bytes[k] % 16) as int));
    }
}

/// Parsing ignores the case of the digits: two texts whose characters have
/// the same digit values, position by position, parse to the same result.
pub proof fn lemma_parse_hex_ignores_case(s: Seq<char>, t: Seq<char>)
    requires
        s.len() == t.len(),
        forall|i: int| 0 <= i < s.len() ==> hex_value(s[i]) == hex_value(t[i]),
        all_hex_digits(s),
    ensures
        parse_hex(s) == parse_hex(t),
        parse_hex(s) is Ok <==> s.len() == HEX_LEN,
{
    assert(all_hex_digits(t)) by {
        assert forall|i: int| 0 <= i < t.len() implies (#[trigger] hex_value(t[i])) is Some by {
            assert(hex_value(s[i]) is Some);
        }
    }
    assert forall|k: int| 0 <= k < s.len() / 2 implies #[trigger] hex_decode(s)[k] == hex_decode(t)[k] by {
        assert(hex_value(s[2 * k]) == hex_value(t[2 * k]));
        assert(hex_value(s[2 * k + 1]) == hex_value(t[2 * k + 1]));
    }
    assert(hex_decode(s) =~= hex_decode(t));
}

fn hex_digit_of(n: u8) -> (c: char)
    requires
        n < 16,
    ensures
        c == hex_digit(n as int),
{
    if n < 10 {
        (n + 48) as char
    } else {
        (n + 87) as char
    }
}

/// Appends one character to a string.
///
/// Calls `String::push`, which std documents as appending the character to
/// the end of the string.
#[verifier::external_body]
fn push_char(s: &mut String, c: char)
    ensures
        final(s)@ == old(s)@.push(c),
{
    s.push(c);
}

fn hex_value_of(c: char) -> (r: Option<u8>)
    ensures
        r == hex_value(c),
{
    let n: u32 = c as u32;
    if 48 <= n && n <= 57 {
        Some((n - 48) as u8)
    } else if 97 <= n && n <= 102 {
        Some((n - 87) as u8)
    } else if 65 <= n && n <= 70 {
        Some((n - 55) as u8)
    } else {
        None
    }
}

proof fn lemma_first_non_hex(s: Seq<char>, k: int)
    requires
        0 <= k < s.len(),
        hex_value(s[k]) is None,
        forall|j: int| 0 <= j < k ==> (#[trigger] hex_value(s[j])) is Some,
    ensures
        first_non_hex(s) == k,
        !all_hex_digits(s),
{
    let c = first_non_hex(s);
    assert(hex_value(s[k]) is None);
    if c < k {
        assert(hex_value(s[c]) is Some);
    } else if k < c {
        assert(hex_value(s[k]) is Some);
    }
}

impl StoreEntryHash {
    /// Lowercase hexadecimal form of the hash (`HEX_LEN` characters).
    pub fn to_hex(&self) -> (s: String)
        ensures
            s@ == hex_encode(self@),
            s@.len() == HEX_LEN,
    {
        let mut s = String::new();
        let mut i: usize = 0;
        while i < HASH_LEN
            invariant
                i <= HASH_LEN,
                s@ == hex_encode(self@.take(i as int)),
            decreases HASH_LEN - i,
        {
            let b: u8 = self.0[i];
            proof {
                assert(b / 16 < 16);
            }
            push_char(&mut s, hex_digit_of(b / 16));
            push_char(&mut s, hex_digit_of(b % 16));
            proof {
                assert(hex_encode(self@.take(i + 1)) =~= hex_encode(self@.take(i as int)).push(
                    hex_digit((b / 16) as int),
                ).push(hex_digit((b % 16) as int)));
            }
            i = i + 1;
        }
        proof {
            assert(self@.take(HASH_LEN as int) =~= self@);
        }
        s
    }

    /// Parses the hexadecimal form of a hash; digits of either case are accepted.
    pub fn from_hex(text: &str) -> (r: Result<StoreEntryHash, HashParseError>)
        ensures
            match r {
                Ok(h) => parse_hex(text@) == Ok::<Seq<u8>, HashParseError>(h@),
                Err(e) => parse_hex(text@) == Err::<Seq<u8>, HashParseError>(e),
            },
    {
        let n = text.unicode_len();
        if n != HEX_LEN {
            return Err(HashParseError::InvalidLength { length: n });
        }
        let ghost s = text@;
        let mut bytes: [u8; HASH_LEN] = [0u8; 32];
        let mut i: usize = 0;
        while i < HASH_LEN
            invariant
                i <= HASH_LEN,
                s == text@,
                s.len() == HEX_LEN,
                forall|j: int| 0 <= j < 2 * i ==> (#[trigger] hex_value(s[j])) is Some,
                forall|k: int|
                    0 <= k < i ==> bytes@[k] == (16 * hex_value(s[2 * k])->0 + hex_value(
                        s[2 * k + 1],
                    )->0) as u8,
            decreases HASH_LEN - i,
        {
            let hi_c = text.get_char(2 * i);
            let hi = match hex_value_of(hi_c) {
                Some(v) => v,
                None => {
                    proof {
                        lemma_first_non_hex(s, 2 * i as int);
                    }
                    return Err(HashParseError::InvalidCharacter { index: 2 * i, character: hi_c });
                },
            };
            let lo_c = text.get_char(2 * i + 1);
            let lo = match hex_value_of(lo_c) {
                Some(v) => v,
                None => {
                    proof {
                        lemma_first_non_hex(s, 2 * i + 1);
                    }
                    return Err(
                        HashParseError::InvalidCharacter { index: 2 * i + 1, character: lo_c },
                    );
                },
            };
            bytes[i] = 16 * hi + lo;
            i = i + 1;
        }
        let h = StoreEntryHash(bytes);
        proof {
            assert(all_hex_digits(s));
            assert(h@ =~= hex_decode(s));
        }
        Ok(h)
    }
}

} // verus!
