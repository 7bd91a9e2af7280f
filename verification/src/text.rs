//! Small helpers on strings and slot tables.

use vstd::prelude::*;
use vstd::string::*;
use rand::RngExt;
use sha2::Digest;

verus! {

/// The string without its first and its last character: what is left of a
/// quoted string when the quotes are taken off.
pub fn strip(s: String) -> (r: String)
    requires
        s@.len() >= 2,
    ensures
        r@ == s@.subrange(1, s@.len() - 1),
{
    let n = s.as_str().unicode_len();
    String::from_str(s.as_str().substring_char(1, n - 1))
}

/// A string of `size` letters `A`.
pub fn generate_string_fixed(size: usize) -> (r: String)
    ensures
        r@.len() == size,
        forall|i: int| 0 <= i < size ==> r@[i] == 'A',
{
    let mut out = String::from_str("");
    proof {
        reveal_strlit("");
        reveal_strlit("A");
    }
    let mut k: usize = 0;
    while k < size
        invariant
            k <= size,
            out@.len() == k,
            forall|i: int| 0 <= i < k ==> out@[i] == 'A',
        decreases size - k,
    {
        proof {
            reveal_strlit("A");
        }
        out.append("A");
        k += 1;
    }
    out
}

/// A table of `slots` slots, every one of them empty from the start.
pub fn create_tlist<T>(slots: usize) -> (list: Vec<Option<T>>)
    ensures
        list@.len() == slots,
        forall|i: int| 0 <= i < slots ==> list@[i] is None,
{
    let mut list: Vec<Option<T>> = Vec::new();
    let mut k: usize = 0;
    while k < slots
        invariant
            k <= slots,
            list@.len() == k,
            forall|i: int| 0 <= i < k ==> list@[i] is None,
        decreases slots - k,
    {
        list.push(None);
        k += 1;
    }
    list
}

/// The SHA-256 digest of a byte string.
pub uninterp spec fn sha256_digest(data: Seq<u8>) -> Seq<u8>;

/// Calls `sha2::Sha256::digest`. Trusted: the result is the SHA-256 digest
/// of `data`, a function of the bytes alone, and it is 32 bytes long.
#[verifier::external_body]
fn sha256(data: &[u8]) -> (digest: Vec<u8>)
    ensures
        digest@ == sha256_digest(data@),
        digest@.len() == 32,
{
    sha2::Sha256::digest(data).to_vec()
}

/// Letters and digits of ASCII.
pub open spec fn is_alphanumeric(c: char) -> bool {
    ('0' <= c && c <= '9') || ('A' <= c && c <= 'Z') || ('a' <= c && c <= 'z')
}

/// Draws `size` characters with `rand::rng().sample_iter(Alphanumeric)`.
/// Trusted: whatever is drawn, the string has `size` characters, each a
/// letter or a digit of ASCII. Two calls need not agree. The call panics
/// where the system's random source cannot seed the generator.
#[verifier::external_body]
pub fn generate_string_alpha(size: usize) -> (r: String)
    ensures
        r@.len() == size,
        forall|i: int| 0 <= i < size ==> is_alphanumeric(#[trigger] r@[i]),
{
    rand::rng().sample_iter(rand::distr::Alphanumeric).take(size).map(char::from).collect()
}

/// The sixteen digits of lower-case hexadecimal, in order.
pub open spec fn hex_digits() -> Seq<char> {
    "0123456789abcdef"@
}

/// Two lower-case hexadecimal digits for each byte, the high one first.
pub open spec fn hex_of(bytes: Seq<u8>) -> Seq<char> {
    Seq::new(
        2 * bytes.len(),
        |i: int|
            hex_digits()[if i % 2 == 0 {
                bytes[i / 2] as int / 16
            } else {
                bytes[i / 2] as int % 16
            }],
    )
}

/// Writes `bytes` in lower-case hexadecimal.
pub fn to_hex(bytes: &[u8]) -> (r: String)
    requires
        2 * bytes.len() <= usize::MAX,
    ensures
        r@ == hex_of(bytes@),
{
    let digits = "0123456789abcdef";
    let mut out = String::from_str("");
    proof {
        reveal_strlit("");
        reveal_strlit("0123456789abcdef");
    }
    let mut k: usize = 0;
    while k < bytes.len()
        invariant
            k <= bytes.len(),
            digits@ == hex_digits(),
            digits@.len() == 16,
            out@ =~= hex_of(bytes@.subrange(0, k as int)),
        decreases bytes.len() - k,
    {
        let hi: usize = (bytes[k] / 16) as usize;
        let lo: usize = (bytes[k] % 16) as usize;
        out.append(digits.substring_char(hi, hi + 1));
        out.append(digits.substring_char(lo, lo + 1));
        k += 1;
        assert(out@ =~= hex_of(bytes@.subrange(0, k as int)));
    }
    assert(bytes@.subrange(0, k as int) =~= bytes@);
    out
}

/// The SHA-256 checksum of `data` as 64 hexadecimal digits.
pub fn checksum(data: &[u8]) -> (r: String)
    ensures
        r@ == hex_of(sha256_digest(data@)),
        r@.len() == 64,
{
    let digest = sha256(data);
    to_hex(digest.as_slice())
}

/// A unit of size: each is 1024 of the one before.
#[derive(Clone, Copy, Debug, PartialEq, Eq, Structural)]
pub enum Unit {
    /// Bytes.
    B,
    /// Kilobytes.
    KB,
    /// Megabytes.
    MB,
    /// Gigabytes.
    G,
}

/// The unit that a name stands for.
pub open spec fn unit_named(name: Seq<char>) -> Option<Unit> {
    if name == "B"@ {
        Some(Unit::B)
    } else if name == "KB"@ {
        Some(Unit::KB)
    } else if name == "MB"@ {
        Some(Unit::MB)
    } else if name == "G"@ {
        Some(Unit::G)
    } else {
        None
    }
}

/// How many times 1024 bytes make the unit, as a power.
pub open spec fn unit_rank(unit: Unit) -> int {
    match unit {
        Unit::B => 0,
        Unit::KB => 1,
        Unit::MB => 2,
        Unit::G => 3,
    }
}

/// The unit that `name` stands for: one of `B`, `KB`, `MB` and `G`.
pub fn parse_unit(name: &str) -> (r: Option<Unit>)
    ensures
        r == unit_named(name@),
{
    proof {
        reveal_strlit("B");
        reveal_strlit("KB");
        reveal_strlit("MB");
        reveal_strlit("G");
    }
    let n = name.unicode_len();
    if n == 1 {
        let c = name.get_char(0);
        assert(name@ =~= seq![c]);
        if c == 'B' {
            assert(name@ =~= "B"@);
            Some(Unit::B)
        } else if c == 'G' {
            assert(name@ =~= "G"@);
            Some(Unit::G)
        } else {
            None
        }
    } else if n == 2 {
        let c = name.get_char(0);
        let d = name.get_char(1);
        assert(name@ =~= seq![c, d]);
        if d != 'B' {
            None
        } else if c == 'K' {
            assert(name@ =~= "KB"@);
            Some(Unit::KB)
        } else if c == 'M' {
            assert(name@ =~= "MB"@);
            Some(Unit::MB)
        } else {
            None
        }
    } else {
        None
    }
}

/// How a number in unit `from` becomes one in unit `to`: the count of
/// multiplications by 1024, or, where it is negative, of divisions. A
/// conversion of a unit into itself is not offered.
pub fn scale_steps(from: Unit, to: Unit) -> (r: Option<i8>)
    ensures
        from == to ==> r is None,
        from != to ==> r == Some((unit_rank(from) - unit_rank(to)) as i8),
{
    let a: i8 = match from {
        Unit::B => 0,
        Unit::KB => 1,
        Unit::MB => 2,
        Unit::G => 3,
    };
    let b: i8 = match to {
        Unit::B => 0,
        Unit::KB => 1,
        Unit::MB => 2,
        Unit::G => 3,
    };
    if a == b {
        None
    } else {
        Some(a - b)
    }
}

} // verus!
