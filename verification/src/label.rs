//! Labels for cross-references: a stable hash of a chunk's name, written in
//! hexadecimal.

use vstd::prelude::*;
use vstd::string::*;

verus! {

/// One step of the hash: the character is folded into the state, which is
/// then multiplied by a fixed prime, modulo 2^64.
pub open spec fn mix(h: u64, c: char) -> u64 {
    (((h ^ (c as u32 as u64)) as int * 0x100000001b3) % 0x1_0000_0000_0000_0000) as u64
}

/// The hash of a name: `mix` over its characters, from a fixed start.
pub open spec fn hash_chars(s: Seq<char>) -> u64
    decreases s.len(),
{
    if s.len() == 0 {
        0xcbf29ce484222325
    } else {
        mix(hash_chars(s.drop_last()), s.last())
    }
}

/// The hexadecimal digit of a value below sixteen.
pub open spec fn digit_text(d: u64) -> Seq<char> {
    if d == 0 {
        "0"@
    } else if d == 1 {
        "1"@
    } else if d == 2 {
        "2"@
    } else if d == 3 {
        "3"@
    } else if d == 4 {
        "4"@
    } else if d == 5 {
        "5"@
    } else if d == 6 {
        "6"@
    } else if d == 7 {
        "7"@
    } else if d == 8 {
        "8"@
    } else if d == 9 {
        "9"@
    } else if d == 10 {
        "a"@
    } else if d == 11 {
        "b"@
    } else if d == 12 {
        "c"@
    } else if d == 13 {
        "d"@
    } else if d == 14 {
        "e"@
    } else {
        "f"@
    }
}

/// A number in lower-case hexadecimal, without leading zeros.
pub open spec fn hex_text(n: u64) -> Seq<char>
    decreases n,
{
    if n < 16 {
        digit_text(n)
    } else {
        hex_text(n / 16) + digit_text(n % 16)
    }
}

/// The label of the chunk `name`: `chunk-` and the hash of the name in
/// hexadecimal. Equal names have equal labels.
pub open spec fn label_of(name: Seq<char>) -> Seq<char> {
    "chunk-"@ + hex_text(hash_chars(name))
}

fn mix_step(h: u64, c: char) -> (r: u64)
    ensures
        r == mix(h, c),
{
    let x: u64 = h ^ (c as u32 as u64);
    let wide: u128 = (x as u128) * 0x100000001b3u128;
    (wide % 0x1_0000_0000_0000_0000u128) as u64
}

/// The hash of `name`.
pub fn hash_name(name: &str) -> (h: u64)
    ensures
        h == hash_chars(name@),
{
    let n: usize = name.unicode_len();
    let mut h: u64 = 0xcbf29ce484222325;
    let mut i: usize = 0;
    while i < n
        invariant
            n == name@.len(),
            i <= n,
            h == hash_chars(name@.take(i as int)),
        decreases n - i,
    {
        proof {
            assert(name@.take(i + 1).drop_last() =~= name@.take(i as int));
        }
        h = mix_step(h, name.get_char(i));
        i += 1;
    }
    proof {
        assert(name@.take(n as int) =~= name@);
    }
    h
}

fn digit(d: u64) -> (r: &'static str)
    requires
        d < 16,
    ensures
        r@ == digit_text(d),
{
    if d == 0 {
        "0"
    } else if d == 1 {
        "1"
    } else if d == 2 {
        "2"
    } else if d == 3 {
        "3"
    } else if d == 4 {
        "4"
    } else if d == 5 {
        "5"
    } else if d == 6 {
        "6"
    } else if d == 7 {
        "7"
    } else if d == 8 {
        "8"
    } else if d == 9 {
        "9"
    } else if d == 10 {
        "a"
    } else if d == 11 {
        "b"
    } else if d == 12 {
        "c"
    } else if d == 13 {
        "d"
    } else if d == 14 {
        "e"
    } else {
        "f"
    }
}

/// `n` in lower-case hexadecimal, without leading zeros.
pub fn to_hex(n: u64) -> (r: String)
    ensures
        r@ == hex_text(n),
    decreases n,
{
    if n < 16 {
        String::from_str(digit(n))
    } else {
        to_hex(n / 16).concat(digit(n % 16))
    }
}

/// The label under which the chunk `name` is cross-referenced.
pub fn chunk_name_to_label(name: &str) -> (label: String)
    ensures
        label@ == label_of(name@),
{
    String::from_str("chunk-").concat(to_hex(hash_name(name)).as_str())
}

} // verus!
