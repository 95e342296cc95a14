use vstd::prelude::*;

use crate::digest::sha1_of;

verus! {

/// Is `c` an ASCII hex digit (either case)?
pub open spec fn is_hex_digit(c: char) -> bool {
    (0x30 <= c as u32 && c as u32 <= 0x39) || (0x61 <= c as u32 && c as u32 <= 0x66) || (0x41
        <= c as u32 && c as u32 <= 0x46)
}

/// Every character of `s` is a hex digit.
pub open spec fn all_hex_digits(s: Seq<char>) -> bool {
    forall|i: int| 0 <= i < s.len() ==> is_hex_digit(#[trigger] s[i])
}

/// The value a hex digit denotes (zero on other characters).
pub open spec fn nibble_of(c: char) -> nat {
    if 0x30 <= c as u32 && c as u32 <= 0x39 {
        (c as u32 - 0x30) as nat
    } else if 0x61 <= c as u32 && c as u32 <= 0x66 {
        (c as u32 - 0x61 + 10) as nat
    } else if 0x41 <= c as u32 && c as u32 <= 0x46 {
        (c as u32 - 0x41 + 10) as nat
    } else {
        0
    }
}

/// The lowercase hex digit for a value below sixteen.
pub open spec fn hex_digit(n: nat) -> char {
    if n == 0 {
        '0'
    } else if n == 1 {
        '1'
    } else if n == 2 {
        '2'
    } else if n == 3 {
        '3'
    } else if n == 4 {
        '4'
    } else if n == 5 {
        '5'
    } else if n == 6 {
        '6'
    } else if n == 7 {
        '7'
    } else if n == 8 {
        '8'
    } else if n == 9 {
        '9'
    } else if n == 10 {
        'a'
    } else if n == 11 {
        'b'
    } else if n == 12 {
        'c'
    } else if n == 13 {
        'd'
    } else if n == 14 {
        'e'
    } else {
        'f'
    }
}

/// The lowercase hex rendering of a byte sequence: two digits per byte,
/// high nibble first.
pub open spec fn hex_chars_of(bytes: Seq<u8>) -> Seq<char> {
    Seq::new(
        bytes.len() * 2,
        |i: int|
            if i % 2 == 0 {
                hex_digit((bytes[i / 2] as nat) / 16)
            } else {
                hex_digit((bytes[i / 2] as nat) % 16)
            },
    )
}

/// The bytes a hex character sequence denotes, two characters per byte.
pub open spec fn bytes_of_hex(s: Seq<char>) -> Seq<u8> {
    Seq::new(s.len() / 2, |i: int| (nibble_of(s[2 * i]) * 16 + nibble_of(s[2 * i + 1])) as u8)
}

/// Digit-wise case normalization of a hex string: each digit replaced by
/// its lowercase form.
pub open spec fn lower_hex(s: Seq<char>) -> Seq<char> {
    Seq::new(s.len(), |i: int| hex_digit(nibble_of(s[i])))
}

/// Why a hex string failed to decode as an identifier.
#[derive(Clone, Copy, Debug, PartialEq, Eq, Structural)]
pub enum HexErrorKind {
    /// The input's length in characters, which was not forty.
    InvalidIdentifierLength(usize),
    /// The position of the first character that is no hex digit, and that
    /// character.
    InvalidIdentifierCharacter(usize, char),
}

/// Errors of identifier operations.
#[derive(Clone, Copy, Debug, PartialEq, Eq, Structural)]
pub enum OIDError {
    /// The given hex string does not denote an identifier.
    InvalidHex(HexErrorKind),
}

/// An object identifier: the twenty-byte digest of an object's canonical
/// encoding, the key under which the object is addressed.
#[derive(Debug)]
pub struct OID {
    bytes: Vec<u8>,
}

impl View for OID {
    type V = Seq<u8>;

    closed spec fn view(&self) -> Seq<u8> {
        self.bytes@
    }
}

impl OID {
    /// An identifier always holds exactly twenty digest bytes.
    pub open spec fn wf(self) -> bool {
        self@.len() == 20
    }

    /// Wrap a raw digest as an identifier. The digest must be exactly
    /// twenty bytes; handing anything else in is a programming error.
    pub fn from_digest(bytes: Vec<u8>) -> (r: OID)
        requires
            bytes@.len() == 20,
        ensures
            r@ == bytes@,
            r.wf(),
    {
        OID { bytes }
    }

    /// The raw digest bytes.
    pub fn as_bytes(&self) -> (r: &Vec<u8>)
        ensures
            r@ == self@,
    {
        &self.bytes
    }

    /// The identifier in human-readable form: its bytes rendered as
    /// lowercase hex, two digits per byte.
    pub fn as_hex(&self) -> (r: String)
        ensures
            r@ == hex_chars_of(self@),
    {
        let mut s = String::new();
        let mut i: usize = 0;
        while i < self.bytes.len()
            invariant
                i <= self.bytes.len(),
                s@ == hex_chars_of(self.bytes@.take(i as int)),
            decreases self.bytes.len() - i,
        {
            let b: u8 = self.bytes[i];
            s.append(hex_digit_str(b / 16));
            s.append(hex_digit_str(b % 16));
            proof {
                let t0 = self.bytes@.take(i as int);
                let t1 = self.bytes@.take(i + 1);
                assert(hex_chars_of(t1) =~= hex_chars_of(t0) + seq![
                    hex_digit((b as nat) / 16),
                    hex_digit((b as nat) % 16),
                ]);
            }
            i += 1;
        }
        proof {
            assert(self.bytes@.take(self.bytes@.len() as int) =~= self.bytes@);
        }
        s
    }

    /// Decode a forty-character hex string into an identifier. Fails when
    /// the length is off, or at the first character that is no hex digit;
    /// on success the decoded identifier's hex form is the digit-wise
    /// case-normalized input.
    pub fn from_hex(hex: &str) -> (r: Result<OID, OIDError>)
        ensures
            r is Ok <==> (hex@.len() == 40 && all_hex_digits(hex@)),
            (r matches Ok(o) ==> o@ == bytes_of_hex(hex@) && o.wf()),
            hex@.len() != 40 ==> r == Err::<OID, OIDError>(
                OIDError::InvalidHex(HexErrorKind::InvalidIdentifierLength(hex@.len() as usize)),
            ),
            (hex@.len() == 40 && !all_hex_digits(hex@)) ==> (r matches Err(
                OIDError::InvalidHex(HexErrorKind::InvalidIdentifierCharacter(p, c)),
            ) && !is_hex_digit(hex@[p as int]) && c == hex@[p as int] && (forall|j: int|
                0 <= j < p ==> is_hex_digit(#[trigger] hex@[j]))),
    {
        let n: usize = hex.unicode_len();
        if n != 40 {
            return Err(OIDError::InvalidHex(HexErrorKind::InvalidIdentifierLength(n)));
        }
        let mut bytes: Vec<u8> = Vec::new();
        let mut i: usize = 0;
        while i < 40
            invariant
                hex@.len() == 40,
                i <= 40,
                i % 2 == 0,
                bytes@.len() == i / 2,
                forall|k: int|
                    0 <= k < i / 2 ==> #[trigger] bytes@[k] == (nibble_of(hex@[2 * k]) * 16
                        + nibble_of(hex@[2 * k + 1])) as u8,
                forall|j: int| 0 <= j < i ==> is_hex_digit(#[trigger] hex@[j]),
            decreases 40 - i,
        {
            let c0 = hex.get_char(i);
            let hi: u8 = match hex_nibble(c0) {
                Some(v) => v,
                None => {
                    return Err(OIDError::InvalidHex(HexErrorKind::InvalidIdentifierCharacter(i, c0)));
                },
            };
            let c1 = hex.get_char(i + 1);
            let lo: u8 = match hex_nibble(c1) {
                Some(v) => v,
                None => {
                    return Err(OIDError::InvalidHex(HexErrorKind::InvalidIdentifierCharacter(i + 1, c1)));
                },
            };
            bytes.push(hi * 16 + lo);
            i += 2;
        }
        proof {
            assert(bytes@ =~= bytes_of_hex(hex@));
        }
        Ok(OID { bytes })
    }
}

impl PartialEq for OID {
    /// Two identifiers are equal exactly when their digest bytes are.
    fn eq(&self, other: &OID) -> (r: bool) {
        vec_u8_eq(&self.bytes, &other.bytes)
    }
}

impl Eq for OID {

}

impl vstd::std_specs::cmp::PartialEqSpecImpl for OID {
    open spec fn obeys_eq_spec() -> bool {
        true
    }

    open spec fn eq_spec(&self, other: &OID) -> bool {
        self@ == other@
    }
}

/// Byte-wise equality of two byte vectors.
pub(crate) fn vec_u8_eq(a: &Vec<u8>, b: &Vec<u8>) -> (r: bool)
    ensures
        r == (a@ == b@),
{
    if a.len() != b.len() {
        return false;
    }
    let mut i: usize = 0;
    while i < a.len()
        invariant
            a@.len() == b@.len(),
            i <= a.len(),
            forall|j: int| 0 <= j < i ==> a@[j] == b@[j],
        decreases a.len() - i,
    {
        if a[i] != b[i] {
            return false;
        }
        i += 1;
    }
    proof {
        assert(a@ =~= b@);
    }
    true
}

/// The one-character string holding the lowercase hex digit for `n`.
fn hex_digit_str(n: u8) -> (r: &'static str)
    requires
        n < 16,
    ensures
        r@ == seq![hex_digit(n as nat)],
{
    if n == 0 {
        proof {
            reveal_strlit("0");
        }
        "0"
    } else if n == 1 {
        proof {
            reveal_strlit("1");
        }
        "1"
    } else if n == 2 {
        proof {
            reveal_strlit("2");
        }
        "2"
    } else if n == 3 {
        proof {
            reveal_strlit("3");
        }
        "3"
    } else if n == 4 {
        proof {
            reveal_strlit("4");
        }
        "4"
    } else if n == 5 {
        proof {
            reveal_strlit("5");
        }
        "5"
    } else if n == 6 {
        proof {
            reveal_strlit("6");
        }
        "6"
    } else if n == 7 {
        proof {
            reveal_strlit("7");
        }
        "7"
    } else if n == 8 {
        proof {
            reveal_strlit("8");
        }
        "8"
    } else if n == 9 {
        proof {
            reveal_strlit("9");
        }
        "9"
    } else if n == 10 {
        proof {
            reveal_strlit("a");
        }
        "a"
    } else if n == 11 {
        proof {
            reveal_strlit("b");
        }
        "b"
    } else if n == 12 {
        proof {
            reveal_strlit("c");
        }
        "c"
    } else if n == 13 {
        proof {
            reveal_strlit("d");
        }
        "d"
    } else if n == 14 {
        proof {
            reveal_strlit("e");
        }
        "e"
    } else {
        proof {
            reveal_strlit("f");
        }
        "f"
    }
}

/// The value of a hex digit character, or nothing on any other character.
fn hex_nibble(c: char) -> (r: Option<u8>)
    ensures
        r is Some <==> is_hex_digit(c),
        (r matches Some(v) ==> v as nat == nibble_of(c) && v < 16),
{
    let u: u32 = c as u32;
    if 0x30 <= u && u <= 0x39 {
        Some((u - 0x30) as u8)
    } else if 0x61 <= u && u <= 0x66 {
        Some((u - 0x61 + 10) as u8)
    } else if 0x41 <= u && u <= 0x46 {
        Some((u - 0x41 + 10) as u8)
    } else {
        None
    }
}

/// Law: a hex digit's value is below sixteen, and rendering a value below
/// sixteen gives a hex digit that denotes that value again.
pub proof fn lemma_nibble_round_trip(n: nat)
    requires
        n < 16,
    ensures
        is_hex_digit(hex_digit(n)),
        nibble_of(hex_digit(n)) == n,
{
}

/// Law: hex encoding round-trips. The hex rendering of any byte sequence
/// is twice as long, consists of hex digits alone, and decodes back to
/// exactly the bytes it was made from.
pub proof fn lemma_hex_round_trip(bytes: Seq<u8>)
    ensures
        hex_chars_of(bytes).len() == 2 * bytes.len(),
        all_hex_digits(hex_chars_of(bytes)),
        bytes_of_hex(hex_chars_of(bytes)) == bytes,
{
    let h = hex_chars_of(bytes);
    assert forall|i: int| 0 <= i < h.len() implies is_hex_digit(#[trigger] h[i]) by {
        if i % 2 == 0 {
            lemma_nibble_round_trip((bytes[i / 2] as nat) / 16);
        } else {
            lemma_nibble_round_trip((bytes[i / 2] as nat) % 16);
        }
    }
    assert forall|k: int| 0 <= k < bytes.len() implies #[trigger] bytes_of_hex(h)[k] == bytes[k] by {
        let b: nat = bytes[k] as nat;
        lemma_nibble_round_trip(b / 16);
        lemma_nibble_round_trip(b % 16);
        assert(h[2 * k] == hex_digit(b / 16));
        assert(h[2 * k + 1] == hex_digit(b % 16));
        assert(bytes_of_hex(h)[k] == ((b / 16) * 16 + b % 16) as u8);
    }
    assert(bytes_of_hex(h) =~= bytes);
}

/// Law: in particular, the digest of any byte sequence survives the hex
/// round trip — its hex encoding is all hex digits, twice the digest's
/// length, and decodes back to exactly the digest.
pub proof fn lemma_digest_hex_round_trip(b: Seq<u8>)
    ensures
        hex_chars_of(sha1_of(b)).len() == 2 * sha1_of(b).len(),
        all_hex_digits(hex_chars_of(sha1_of(b))),
        bytes_of_hex(hex_chars_of(sha1_of(b))) == sha1_of(b),
{
    lemma_hex_round_trip(sha1_of(b));
}

/// Law: decoding then re-encoding a well-formed hex string gives its
/// digit-wise case normalization.
pub proof fn lemma_hex_decode_encode(s: Seq<char>)
    requires
        all_hex_digits(s),
        s.len() % 2 == 0,
    ensures
        hex_chars_of(bytes_of_hex(s)) == lower_hex(s),
{
    let b = bytes_of_hex(s);
    assert forall|i: int| 0 <= i < s.len() implies #[trigger] hex_chars_of(b)[i] == hex_digit(
        nibble_of(s[i]),
    ) by {
        let k: int = i / 2;
        let hi: nat = nibble_of(s[2 * k]);
        let lo: nat = nibble_of(s[2 * k + 1]);
        assert(is_hex_digit(s[2 * k]) && is_hex_digit(s[2 * k + 1]));
        assert(hi < 16 && lo < 16);
        assert(b[k] == (hi * 16 + lo) as u8);
        assert((b[k] as nat) / 16 == hi && (b[k] as nat) % 16 == lo);
        if i % 2 == 0 {
            assert(2 * k == i);
        } else {
            assert(2 * k + 1 == i);
        }
    }
    assert(hex_chars_of(b) =~= lower_hex(s));
}

} // verus!
