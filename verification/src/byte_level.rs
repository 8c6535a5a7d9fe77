//! GPT-2's reversible byte-to-character alphabet: every byte gets a
//! printable stand-in character so that BPE can run over text made of them.

use vstd::prelude::*;
use vstd::utf8::*;
use crate::error::MiniInferError;
use crate::text::push_char;

verus! {

/// Bytes that GPT-2 keeps as the character with the same code point.
pub open spec fn is_kept_byte(b: u8) -> bool {
    (33 <= b <= 126) || (161 <= b <= 172) || (174 <= b <= 255)
}

/// The code point GPT-2 assigns to a byte: kept bytes keep their own value,
/// the other 68 bytes get 256, 257, ... in increasing byte order.
pub open spec fn byte_code_point(b: u8) -> u32 {
    if is_kept_byte(b) {
        b as u32
    } else if b <= 32 {
        (256 + b) as u32
    } else if b <= 160 {
        (289 + (b - 127)) as u32
    } else {
        323
    }
}

pub open spec fn byte_char(b: u8) -> char {
    byte_code_point(b) as char
}

/// The byte whose stand-in character is `c`, if any.
pub open spec fn char_byte(c: char) -> Option<u8> {
    if exists|b: u8| byte_char(b) == c {
        Some(choose|b: u8| byte_char(b) == c)
    } else {
        None
    }
}

/// The stand-in text for a string: one character per UTF-8 byte.
pub open spec fn byte_level_encode(s: Seq<char>) -> Seq<char> {
    encode_utf8(s).map_values(|b: u8| byte_char(b))
}

/// The bytes behind a stand-in text, if every character stands for a byte.
pub open spec fn stand_in_bytes(t: Seq<char>) -> Option<Seq<u8>> {
    if forall|i: int| 0 <= i < t.len() ==> #[trigger] char_byte(t[i]) is Some {
        Some(t.map_values(|c: char| char_byte(c)->0))
    } else {
        None
    }
}

/// The text a stand-in text decodes to: `None` when a character stands for
/// no byte or the bytes are not UTF-8.
pub open spec fn byte_level_decode(t: Seq<char>) -> Option<Seq<char>> {
    match stand_in_bytes(t) {
        Some(bytes) => if valid_utf8(bytes) {
            Some(decode_utf8(bytes))
        } else {
            None
        },
        None => None,
    }
}

/// Distinct bytes get distinct stand-in characters.
pub proof fn lemma_byte_char_injective(a: u8, b: u8)
    ensures
        byte_char(a) == byte_char(b) ==> a == b,
{
    assert(byte_code_point(a) < 0xD800);
    assert(byte_code_point(b) < 0xD800);
    if byte_char(a) == byte_char(b) {
        assert(byte_code_point(a) == byte_code_point(b));
    }
}

/// A stand-in character's code point is the byte's assigned code point.
pub proof fn lemma_byte_char_code(b: u8)
    ensures
        byte_char(b) as u32 == byte_code_point(b),
        byte_code_point(b) < 324,
{
    assert(byte_code_point(b) < 0xD800);
}

/// Every byte comes back from its stand-in character.
pub proof fn lemma_char_byte_of_byte_char(b: u8)
    ensures
        char_byte(byte_char(b)) == Some(b),
{
    let c = byte_char(b);
    assert(exists|x: u8| byte_char(x) == c);
    let x = choose|x: u8| byte_char(x) == c;
    lemma_byte_char_injective(x, b);
}

/// Decoding the stand-in text of a string gives the string back.
pub proof fn lemma_byte_level_round_trip(s: Seq<char>)
    ensures
        byte_level_decode(byte_level_encode(s)) == Some(s),
{
    let bytes = encode_utf8(s);
    let t = byte_level_encode(s);
    assert forall|i: int| 0 <= i < t.len() implies #[trigger] char_byte(t[i]) is Some by {
        lemma_char_byte_of_byte_char(bytes[i]);
    }
    assert forall|i: int| 0 <= i < t.len() implies #[trigger] char_byte(t[i])->0 == bytes[i] by {
        lemma_char_byte_of_byte_char(bytes[i]);
    }
    assert(t.map_values(|c: char| char_byte(c)->0) =~= bytes);
    encode_utf8_valid_utf8(s);
    encode_utf8_decode_utf8(s);
}

/// The character with code point `cp` (`char::from_u32`): `Some` exactly for
/// Unicode scalar values.
#[verifier::external_body]
fn char_from_u32(cp: u32) -> (r: Option<char>)
    ensures
        r is Some <==> (cp < 0xD800 || (0xE000 <= cp && cp <= 0x10FFFF)),
        r matches Some(c) ==> c as u32 == cp,
{
    char::from_u32(cp)
}

/// A string made of UTF-8 bytes (`String::from_utf8`): `Some` exactly when
/// the bytes are valid UTF-8, and then the string's encoding is those bytes.
#[verifier::external_body]
fn string_from_utf8(bytes: Vec<u8>) -> (r: Option<String>)
    ensures
        r is Some <==> valid_utf8(bytes@),
        r matches Some(s) ==> encode_utf8(s@) == bytes@,
{
    match String::from_utf8(bytes) {
        Ok(s) => Some(s),
        Err(_) => None,
    }
}

/// The byte-to-character table, indexed by byte.
pub struct ByteToUnicode {
    chars: Vec<char>,
}

impl ByteToUnicode {
    pub closed spec fn table(&self) -> Seq<char> {
        self.chars@
    }

    /// The table holds one stand-in per byte.
    pub closed spec fn wf(&self) -> bool {
        &&& self.chars@.len() == 256
        &&& forall|b: u8| #[trigger] self.chars@[b as int] == byte_char(b)
    }

    /// The stand-in character of `byte`.
    pub fn get(&self, byte: &u8) -> (r: Option<&char>)
        requires
            self.wf(),
        ensures
            r == Some(&byte_char(*byte)),
    {
        Some(&self.chars[*byte as usize])
    }

    /// Number of bytes mapped.
    pub fn len(&self) -> (n: usize)
        requires
            self.wf(),
        ensures
            n == 256,
    {
        self.chars.len()
    }

    /// The stand-in characters, in byte order.
    pub fn values(&self) -> (v: &[char])
        requires
            self.wf(),
        ensures
            v@ == Seq::new(256, |i: int| byte_char(i as u8)),
    {
        assert(self.chars@ =~= Seq::new(256, |i: int| byte_char(i as u8))) by {
            assert forall|i: int| 0 <= i < 256 implies self.chars@[i] == byte_char(i as u8) by {
                let b = i as u8;
                assert(self.chars@[b as int] == byte_char(b));
            }
        }
        self.chars.as_slice()
    }
}

/// The character-to-byte table, indexed by code point.
pub struct UnicodeToByte {
    bytes: Vec<Option<u8>>,
}

impl UnicodeToByte {
    /// The byte a character stands for, as the table says.
    pub closed spec fn lookup(&self, c: char) -> Option<u8> {
        if (c as u32) < self.bytes@.len() {
            self.bytes@[c as u32 as int]
        } else {
            None
        }
    }

    pub closed spec fn wf(&self) -> bool {
        forall|c: char| #[trigger] self.lookup(c) == char_byte(c)
    }

    /// The byte `c` stands for.
    pub fn get(&self, c: &char) -> (r: Option<&u8>)
        requires
            self.wf(),
        ensures
            r matches Some(b) ==> char_byte(*c) == Some(*b),
            r is None <==> char_byte(*c) is None,
    {
        proof {
            assert(self.lookup(*c) == char_byte(*c));
        }
        let cp = *c as u32;
        if (cp as usize) < self.bytes.len() {
            match &self.bytes[cp as usize] {
                Some(b) => Some(b),
                None => None,
            }
        } else {
            None
        }
    }
}

/// GPT-2's byte-to-character table, built as GPT-2 does: the kept bytes in
/// order, then every other byte with the next free code point from 256.
pub fn bytes_to_unicode() -> (table: ByteToUnicode)
    ensures
        table.wf(),
{
    let mut bytes: Vec<u8> = Vec::new();
    let mut b: u16 = 33;
    while b <= 126
        invariant
            33 <= b <= 127,
            bytes@.len() == b - 33,
            forall|i: int| 0 <= i < bytes@.len() ==> #[trigger] bytes@[i] == 33 + i,
        decreases 127 - b,
    {
        bytes.push(b as u8);
        b = b + 1;
    }
    let mut b: u16 = 0xA1;
    while b <= 0xAC
        invariant
            0xA1 <= b <= 0xAD,
            bytes@.len() == 94 + (b - 0xA1),
            forall|i: int| 0 <= i < 94 ==> #[trigger] bytes@[i] == 33 + i,
            forall|i: int| 94 <= i < bytes@.len() ==> #[trigger] bytes@[i] == 0xA1 + (i - 94),
        decreases 0xAD - b,
    {
        bytes.push(b as u8);
        b = b + 1;
    }
    let mut b: u16 = 0xAE;
    while b <= 0xFF
        invariant
            0xAE <= b <= 0x100,
            bytes@.len() == 106 + (b - 0xAE),
            forall|i: int| 0 <= i < 94 ==> #[trigger] bytes@[i] == 33 + i,
            forall|i: int| 94 <= i < 106 ==> #[trigger] bytes@[i] == 0xA1 + (i - 94),
            forall|i: int| 106 <= i < bytes@.len() ==> #[trigger] bytes@[i] == 0xAE + (i - 106),
        decreases 0x100 - b,
    {
        bytes.push(b as u8);
        b = b + 1;
    }
    assert forall|i: int| 0 <= i < bytes@.len() implies is_kept_byte(#[trigger] bytes@[i]) by {}
    assert forall|x: u8| is_kept_byte(x) implies #[trigger] bytes@.contains(x) by {
        if 33 <= x <= 126 {
            assert(bytes@[x - 33] == x);
        } else if 161 <= x <= 172 {
            assert(bytes@[94 + (x - 161)] == x);
        } else {
            assert(bytes@[106 + (x - 174)] == x);
        }
    }
    let mut codepoints: Vec<u32> = Vec::new();
    let mut i: usize = 0;
    while i < bytes.len()
        invariant
            i <= bytes.len(),
            codepoints@.len() == i,
            forall|j: int| 0 <= j < bytes@.len() ==> is_kept_byte(#[trigger] bytes@[j]),
            forall|j: int| 0 <= j < i ==> #[trigger] codepoints@[j] == byte_code_point(bytes@[j]),
        decreases bytes.len() - i,
    {
        codepoints.push(bytes[i] as u32);
        i = i + 1;
    }
    let mut next_codepoint: u32 = 256;
    let mut byte: u16 = 0;
    while byte <= 255
        invariant
            byte <= 256,
            bytes@.len() == codepoints@.len(),
            forall|j: int| 0 <= j < bytes@.len() ==> #[trigger] codepoints@[j] == byte_code_point(
                bytes@[j],
            ),
            forall|x: u8| is_kept_byte(x) ==> #[trigger] bytes@.contains(x),
            forall|x: u8| (x as u16) < byte ==> #[trigger] bytes@.contains(x),
            forall|j: int| 0 <= j < bytes@.len() ==> is_kept_byte(#[trigger] bytes@[j]) || (
            bytes@[j] as u16) < byte,
            next_codepoint == if byte <= 33 {
                (256 + byte) as u32
            } else if byte <= 127 {
                289
            } else if byte <= 161 {
                (289 + (byte - 127)) as u32
            } else if byte <= 173 {
                323
            } else {
                324
            },
        decreases 256 - byte,
    {
        let x = byte as u8;
        let ghost before = bytes@;
        proof {
            if !is_kept_byte(x) && before.contains(x) {
                let j = choose|j: int| 0 <= j < before.len() && before[j] == x;
                assert(is_kept_byte(before[j]) || (before[j] as u16) < byte);
            }
        }
        if !contains_byte(&bytes, x) {
            assert(!is_kept_byte(x));
            bytes.push(x);
            codepoints.push(next_codepoint);
            next_codepoint = next_codepoint + 1;
            assert(bytes@[bytes@.len() - 1] == x);
        }
        assert forall|y: u8| before.contains(y) implies #[trigger] bytes@.contains(y) by {
            let j = choose|j: int| 0 <= j < before.len() && before[j] == y;
            assert(bytes@[j] == y);
        }
        assert(bytes@.contains(x)) by {
            if !before.contains(x) {
                assert(bytes@[bytes@.len() - 1] == x);
            }
        }
        byte = byte + 1;
    }
    let mut chars: Vec<char> = Vec::new();
    let mut k: usize = 0;
    while k < 256
        invariant
            chars@.len() == k,
            k <= 256,
        decreases 256 - k,
    {
        chars.push('\0');
        k = k + 1;
    }
    let mut i: usize = 0;
    while i < bytes.len()
        invariant
            i <= bytes@.len() == codepoints@.len(),
            chars@.len() == 256,
            forall|j: int| 0 <= j < bytes@.len() ==> #[trigger] codepoints@[j] == byte_code_point(
                bytes@[j],
            ),
            forall|j: int| 0 <= j < i ==> #[trigger] chars@[bytes@[j] as int] == byte_char(bytes@[j]),
        decreases bytes.len() - i,
    {
        let cp = codepoints[i];
        let c = match char_from_u32(cp) {
            Some(c) => c,
            None => '\0',
        };
        let ghost before = chars@;
        chars.set(bytes[i] as usize, c);
        assert forall|j: int| 0 <= j < i + 1 implies #[trigger] chars@[bytes@[j] as int] == byte_char(
            bytes@[j],
        ) by {
            if bytes@[j] == bytes@[i as int] {
                lemma_byte_char_code(bytes@[j]);
                vstd::utf8::char_u32_cast(c, cp);
            } else {
                assert(chars@[bytes@[j] as int] == before[bytes@[j] as int]);
            }
        }
        i = i + 1;
    }
    let table = ByteToUnicode { chars };
    assert forall|x: u8| #[trigger] table.chars@[x as int] == byte_char(x) by {
        assert(bytes@.contains(x));
        let j = choose|j: int| 0 <= j < bytes@.len() && bytes@[j] == x;
        assert(table.chars@[bytes@[j] as int] == byte_char(bytes@[j]));
    }
    table
}

fn contains_byte(v: &Vec<u8>, b: u8) -> (r: bool)
    ensures
        r == v@.contains(b),
{
    let mut i: usize = 0;
    while i < v.len()
        invariant
            i <= v.len(),
            forall|j: int| 0 <= j < i ==> v@[j] != b,
        decreases v.len() - i,
    {
        if v[i] == b {
            return true;
        }
        i = i + 1;
    }
    false
}

/// The inverse table: each stand-in character back to its byte.
pub fn unicode_to_bytes() -> (table: UnicodeToByte)
    ensures
        table.wf(),
{
    let byte_to_char = bytes_to_unicode();
    let chars = byte_to_char.values();
    let mut size: usize = 0;
    let mut i: usize = 0;
    while i < chars.len()
        invariant
            i <= chars@.len() == 256,
            chars@ == Seq::new(256, |k: int| byte_char(k as u8)),
            size <= 324,
            forall|k: int| 0 <= k < i ==> (#[trigger] chars@[k] as u32) < size,
        decreases chars.len() - i,
    {
        let cp = chars[i] as u32;
        if cp as usize >= size {
            size = cp as usize + 1;
        }
        i = i + 1;
    }
    let mut bytes: Vec<Option<u8>> = Vec::new();
    while bytes.len() < size
        invariant
            bytes@.len() <= size,
            forall|k: int| 0 <= k < bytes@.len() ==> #[trigger] bytes@[k] is None,
        decreases size - bytes.len(),
    {
        bytes.push(None);
    }
    let mut i: usize = 0;
    while i < chars.len()
        invariant
            i <= chars@.len() == 256,
            chars@ == Seq::new(256, |k: int| byte_char(k as u8)),
            bytes@.len() == size,
            forall|k: int| 0 <= k < 256 ==> (#[trigger] chars@[k] as u32) < size,
            forall|k: int| 0 <= k < i ==> #[trigger] bytes@[byte_code_point(k as u8) as int] == Some(
                k as u8,
            ),
            forall|cp: int|
                0 <= cp < size ==> (#[trigger] bytes@[cp] matches Some(x) ==> (x as int) < i
                    && byte_code_point(x) == cp),
        decreases chars.len() - i,
    {
        let cp = chars[i] as u32;
        proof {
            assert(chars@[i as int] == byte_char(i as u8));
            lemma_byte_char_code(i as u8);
            assert forall|k: int| 0 <= k < i implies #[trigger] byte_code_point(k as u8) != cp by {
                lemma_byte_char_injective(k as u8, i as u8);
            }
        }
        let ghost before = bytes@;
        bytes.set(cp as usize, Some(i as u8));
        proof {
            assert forall|k: int| 0 <= k < i + 1 implies #[trigger] bytes@[byte_code_point(
                k as u8,
            ) as int] == Some(k as u8) by {
                lemma_byte_char_code(k as u8);
                assert(chars@[k] == byte_char(k as u8));
                assert((chars@[k] as u32) < size);
                if k < i {
                    assert(before[byte_code_point(k as u8) as int] == Some(k as u8));
                }
            }
        }
        i = i + 1;
    }
    let table = UnicodeToByte { bytes };
    assert forall|c: char| #[trigger] table.lookup(c) == char_byte(c) by {
        let cp = c as u32;
        if exists|b: u8| byte_char(b) == c {
            let b = choose|b: u8| byte_char(b) == c;
            lemma_byte_char_code(b);
            assert(chars@[b as int] == byte_char(b));
            assert(table.bytes@[byte_code_point(b) as int] == Some(b));
        } else {
            if (cp as int) < table.bytes@.len() {
                if let Some(x) = table.bytes@[cp as int] {
                    lemma_byte_char_code(x);
                    vstd::utf8::char_u32_cast(c, cp);
                    assert(byte_char(x) == c);
                }
            }
        }
    }
    table
}

/// The stand-in text of `text`: one character for each of its UTF-8 bytes.
pub fn encode_bytes_to_unicode(text: &str) -> (encoded: String)
    ensures
        encoded@ == byte_level_encode(text@),
{
    let byte_to_char = bytes_to_unicode();
    let bytes = text.as_bytes();
    let mut encoded = String::new();
    let mut i: usize = 0;
    while i < bytes.len()
        invariant
            byte_to_char.wf(),
            i <= bytes@.len(),
            bytes@ == encode_utf8(text@),
            encoded@ == bytes@.take(i as int).map_values(|b: u8| byte_char(b)),
        decreases bytes.len() - i,
    {
        let c = match byte_to_char.get(&bytes[i]) {
            Some(c) => *c,
            None => '\0',
        };
        push_char(&mut encoded, c);
        i = i + 1;
        assert(encoded@ =~= bytes@.take(i as int).map_values(|b: u8| byte_char(b)));
    }
    assert(bytes@.take(bytes@.len() as int) =~= bytes@);
    encoded
}

/// Turns a stand-in text back into the text it encodes.
pub fn clean_decoded_tokens(tokens: &str) -> (r: Result<String, MiniInferError>)
    ensures
        match byte_level_decode(tokens@) {
            Some(s) => r matches Ok(out) && out@ == s,
            None => r == Err::<String, MiniInferError>(MiniInferError::InvalidInput),
        },
{
    let mapping = unicode_to_bytes();
    let mut bytes: Vec<u8> = Vec::new();
    for character in it: tokens.chars()
        invariant
            mapping.wf(),
            it.seq() == tokens@,
            bytes@.len() == it.index(),
            forall|j: int| 0 <= j < it.index() ==> #[trigger] char_byte(tokens@[j]) == Some(bytes@[j]),
    {
        match mapping.get(&character) {
            Some(byte) => bytes.push(*byte),
            None => {
                proof {
                    let j = it.index() as int;
                    assert(tokens@[j] == character);
                    assert(stand_in_bytes(tokens@) is None);
                }
                return Err(MiniInferError::InvalidInput);
            },
        }
    }
    proof {
        assert(tokens@.map_values(|c: char| char_byte(c)->0) =~= bytes@);
    }
    match string_from_utf8(bytes) {
        Some(s) => {
            proof {
                encode_utf8_decode_utf8(s@);
            }
            Ok(s)
        },
        None => Err(MiniInferError::InvalidInput),
    }
}

} // verus!
