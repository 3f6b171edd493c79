//! Digests: SHA-256 of a run of bytes, written as lowercase hexadecimal.

use sha2::{Digest, Sha256};
use vstd::prelude::*;
use vstd::string::*;

verus! {

/// The SHA-256 digest of `data`.
pub uninterp spec fn sha256_digest(data: Seq<u8>) -> Seq<u8>;

/// Hashes `data` with `sha2::Sha256`: a fresh hasher, one `update` with all
/// of `data`, then `finalize`. Trusted, not proved: what comes back is the
/// digest that the `sha2` crate computes, which depends on the bytes of
/// `data` alone and is 32 bytes long.
#[verifier::external_body]
pub(crate) fn sha256(data: &[u8]) -> (digest: Vec<u8>)
    ensures
        digest@ == sha256_digest(data@),
        digest@.len() == 32,
{
    let mut hasher = Sha256::new();
    hasher.update(data);
    hasher.finalize().to_vec()
}

/// The character of a hexadecimal digit.
pub open spec fn hex_digit(n: nat) -> char {
    seq!['0', '1', '2', '3', '4', '5', '6', '7', '8', '9', 'a', 'b', 'c', 'd', 'e', 'f'][n as int]
}

/// `bytes` in lowercase hexadecimal: two digits for each byte, the high
/// half first.
pub open spec fn hex(bytes: Seq<u8>) -> Seq<char> {
    Seq::new(
        2 * bytes.len(),
        |i: int|
            if i % 2 == 0 {
                hex_digit((bytes[i / 2] / 16) as nat)
            } else {
                hex_digit((bytes[i / 2] % 16) as nat)
            },
    )
}

/// A character that [`hex`] writes.
pub open spec fn is_hex_char(c: char) -> bool {
    exists|n: nat| n < 16 && c == hex_digit(n)
}

/// A text of hexadecimal digits.
pub open spec fn is_hex_text(text: Seq<char>) -> bool {
    forall|i: int| 0 <= i < text.len() ==> is_hex_char(#[trigger] text[i])
}

/// What [`hex`] writes consists of hexadecimal digits, two for each byte.
pub proof fn lemma_hex_chars(bytes: Seq<u8>)
    ensures
        hex(bytes).len() == 2 * bytes.len(),
        is_hex_text(hex(bytes)),
{
    assert forall|i: int| 0 <= i < hex(bytes).len() implies is_hex_char(
        #[trigger] hex(bytes)[i],
    ) by {
        let b = bytes[i / 2];
        let n: nat = if i % 2 == 0 {
            (b / 16) as nat
        } else {
            (b % 16) as nat
        };
        assert(n < 16 && hex(bytes)[i] == hex_digit(n));
    }
}

/// A hexadecimal digit is neither a colon nor a line feed.
pub proof fn lemma_hex_char_is_plain(c: char)
    requires
        is_hex_char(c),
    ensures
        c != ':',
        c != '\n',
{
    let n = choose|n: nat| n < 16 && c == hex_digit(n);
    assert(n == 0 || n == 1 || n == 2 || n == 3 || n == 4 || n == 5 || n == 6 || n == 7 || n == 8
        || n == 9 || n == 10 || n == 11 || n == 12 || n == 13 || n == 14 || n == 15);
}

/// Two digits stand for one value only.
proof fn lemma_hex_digit_injective(m: nat, n: nat)
    requires
        m < 16,
        n < 16,
        hex_digit(m) == hex_digit(n),
    ensures
        m == n,
{
}

/// Different bytes are written differently.
pub proof fn lemma_hex_injective(a: Seq<u8>, b: Seq<u8>)
    requires
        hex(a) == hex(b),
    ensures
        a == b,
{
    assert(hex(a).len() == 2 * a.len());
    assert(hex(b).len() == 2 * b.len());
    assert(a.len() == b.len());
    assert forall|k: int| 0 <= k < a.len() implies a[k] == b[k] by {
        assert((2 * k) / 2 == k && (2 * k) % 2 == 0);
        assert((2 * k + 1) / 2 == k && (2 * k + 1) % 2 == 1);
        assert(hex(a)[2 * k] == hex_digit((a[k] / 16) as nat));
        assert(hex(b)[2 * k] == hex_digit((b[k] / 16) as nat));
        assert(hex(a)[2 * k + 1] == hex_digit((a[k] % 16) as nat));
        assert(hex(b)[2 * k + 1] == hex_digit((b[k] % 16) as nat));
        lemma_hex_digit_injective((a[k] / 16) as nat, (b[k] / 16) as nat);
        lemma_hex_digit_injective((a[k] % 16) as nat, (b[k] % 16) as nat);
    }
    assert(a =~= b);
}

/// The one-character string of a hexadecimal digit.
fn hex_digit_text(n: u8) -> (text: &'static str)
    requires
        n < 16,
    ensures
        text@ == seq![hex_digit(n as nat)],
{
    proof {
        reveal_strlit("0");
        reveal_strlit("1");
        reveal_strlit("2");
        reveal_strlit("3");
        reveal_strlit("4");
        reveal_strlit("5");
        reveal_strlit("6");
        reveal_strlit("7");
        reveal_strlit("8");
        reveal_strlit("9");
        reveal_strlit("a");
        reveal_strlit("b");
        reveal_strlit("c");
        reveal_strlit("d");
        reveal_strlit("e");
        reveal_strlit("f");
    }
    let text = match n {
        0 => "0",
        1 => "1",
        2 => "2",
        3 => "3",
        4 => "4",
        5 => "5",
        6 => "6",
        7 => "7",
        8 => "8",
        9 => "9",
        10 => "a",
        11 => "b",
        12 => "c",
        13 => "d",
        14 => "e",
        _ => "f",
    };
    assert(text@ =~= seq![hex_digit(n as nat)]);
    text
}

/// Writes `bytes` in lowercase hexadecimal.
pub fn to_hex(bytes: &[u8]) -> (text: String)
    ensures
        text@ == hex(bytes@),
{
    let mut text = String::new();
    let mut i: usize = 0;
    assert(text@ =~= hex(bytes@.take(0)));
    while i < bytes.len()
        invariant
            i <= bytes.len(),
            text@ == hex(bytes@.take(i as int)),
        decreases bytes.len() - i,
    {
        let b = bytes[i];
        let ghost before = text@;
        text.append(hex_digit_text(b / 16));
        text.append(hex_digit_text(b % 16));
        proof {
            let now = bytes@.take(i + 1);
            let old = bytes@.take(i as int);
            assert forall|k: int| 0 <= k < 2 * (i + 1) implies text@[k] == hex(now)[k] by {
                if k < 2 * i {
                    assert(text@[k] == hex(old)[k]);
                    assert(old[k / 2] == now[k / 2]);
                }
            }
            assert(text@ =~= hex(now));
        }
        i += 1;
    }
    assert(bytes@.take(i as int) == bytes@);
    text
}

/// The digest of `data` as it appears in keys: SHA-256, in hexadecimal.
pub open spec fn digest_text(data: Seq<u8>) -> Seq<char> {
    hex(sha256_digest(data))
}

/// Computes the digest of `data` as it appears in keys.
pub fn digest_of(data: &[u8]) -> (text: String)
    ensures
        text@ == digest_text(data@),
        text@.len() == 64,
{
    let raw = sha256(data);
    to_hex(raw.as_slice())
}

} // verus!
