//! Location of the cached analysis of an input file.
//!
//! The cache file is named after a hash of the cache format version and the
//! input's canonical path, size and modification time, written as sixteen
//! lowercase hexadecimal digits.

use std::collections::hash_map::DefaultHasher;
use std::hash::{Hash, Hasher};
use std::path::PathBuf;
use vstd::prelude::*;

verus! {

/// Paths as the standard library holds them, bytes not necessarily UTF-8.
#[verifier::external_type_specification]
#[verifier::external_body]
pub struct ExPathBuf(std::path::PathBuf);

/// Bumped when feature extraction or beat tracking changes, so that older
/// cached analyses are not reused.
pub const ANALYSIS_CACHE_VERSION: u32 = 2;

/// `<u32 as Hash>::hash`: feeds `value` to the hasher. Nothing is claimed of
/// the resulting state.
#[verifier::external_body]
fn feed_u32(hasher: &mut DefaultHasher, value: u32) {
    value.hash(hasher)
}

/// `<u64 as Hash>::hash`: feeds `value` to the hasher. Nothing is claimed of
/// the resulting state.
#[verifier::external_body]
fn feed_u64(hasher: &mut DefaultHasher, value: u64) {
    value.hash(hasher)
}

/// `<PathBuf as Hash>::hash`: feeds the path `path`, as its raw bytes, to
/// the hasher. Nothing is claimed of the resulting state.
#[verifier::external_body]
fn feed_path(hasher: &mut DefaultHasher, path: &PathBuf) {
    path.hash(hasher)
}

/// The lowercase hexadecimal digit for `d < 16`.
pub open spec fn hex_char(d: nat) -> char {
    if d < 10 {
        (48 + d) as char
    } else {
        (87 + d) as char
    }
}

/// The last `count` hexadecimal digits of `value`, most significant first,
/// padded with zeros.
pub open spec fn hex_digits(value: nat, count: nat) -> Seq<char>
    decreases count,
{
    if count == 0 {
        Seq::empty()
    } else {
        hex_digits(value / 16, (count - 1) as nat).push(hex_char(value % 16))
    }
}

/// The cache file for a given hash.
pub open spec fn cache_file(hash: u64) -> Seq<char> {
    "target/eternal-debug-cache/"@ + hex_digits(hash as nat, 16) + ".json"@
}

fn hex_digit(d: u64) -> (digit: &'static str)
    requires
        d < 16,
    ensures
        digit@ == seq![hex_char(d as nat)],
{
    proof {
        reveal_strlit("0");
        reveal_strlit("1");
        reveal_strlit("2");
        reveal_strlit("3");
        reveal_strlit("4");
        reveal_strlit("5");
        reveal_strlit("6");
        reveal_strlit("7");
        reveal_strlit("8");
        reveal_strlit("9");
        reveal_strlit("a");
        reveal_strlit("b");
        reveal_strlit("c");
        reveal_strlit("d");
        reveal_strlit("e");
        reveal_strlit("f");
    }
    let digit = if d == 0 {
        "0"
    } else if d == 1 {
        "1"
    } else if d == 2 {
        "2"
    } else if d == 3 {
        "3"
    } else if d == 4 {
        "4"
    } else if d == 5 {
        "5"
    } else if d == 6 {
        "6"
    } else if d == 7 {
        "7"
    } else if d == 8 {
        "8"
    } else if d == 9 {
        "9"
    } else if d == 10 {
        "a"
    } else if d == 11 {
        "b"
    } else if d == 12 {
        "c"
    } else if d == 13 {
        "d"
    } else if d == 14 {
        "e"
    } else {
        "f"
    };
    assert(digit@ =~= seq![hex_char(d as nat)]);
    digit
}

proof fn lemma_hex_digits_step(value: nat, count: nat)
    ensures
        hex_digits(value, count + 1) == hex_digits(value / 16, count).push(hex_char(value % 16)),
{
}

proof fn lemma_div_16_twice(value: nat, k: nat)
    ensures
        value / pow16(k) / 16 == value / pow16(k + 1),
{
    lemma_pow16_positive(k);
    vstd::arithmetic::div_mod::lemma_div_denominator(value as int, pow16(k) as int, 16);
    assert(pow16(k + 1) == pow16(k) * 16);
}

/// `16^k`.
pub open spec fn pow16(k: nat) -> nat
    decreases k,
{
    if k == 0 {
        1
    } else {
        16 * pow16((k - 1) as nat)
    }
}

proof fn lemma_pow16_positive(k: nat)
    ensures
        pow16(k) > 0,
    decreases k,
{
    if k > 0 {
        lemma_pow16_positive((k - 1) as nat);
    }
}

/// The hexadecimal rendering of `hash`, sixteen digits wide.
fn hex16(hash: u64) -> (text: String)
    ensures
        text@ == hex_digits(hash as nat, 16),
{
    // digits[i] is digit i counted from the least significant one.
    let mut digits: Vec<u64> = Vec::new();
    let mut rest = hash;
    let mut i: usize = 0;
    assert(pow16(0) == 1);
    assert(hash as nat / 1 == hash as nat);
    while i < 16
        invariant
            i <= 16,
            digits@.len() == i,
            rest == hash as nat / pow16(i as nat),
            forall|j: int|
                0 <= j < i ==> #[trigger] digits@[j] == (hash as nat / pow16(j as nat)) % 16,
        decreases 16 - i,
    {
        proof {
            lemma_pow16_positive(i as nat);
            lemma_div_16_twice(hash as nat, i as nat);
        }
        digits.push(rest % 16);
        rest = rest / 16;
        i = i + 1;
    }
    let mut text = String::new();
    let mut k: usize = 16;
    while k > 0
        invariant
            k <= 16,
            digits@.len() == 16,
            forall|j: int|
                0 <= j < 16 ==> #[trigger] digits@[j] == (hash as nat / pow16(j as nat)) % 16,
            text@ == hex_digits(hash as nat / pow16(k as nat), (16 - k) as nat),
        decreases k,
    {
        k = k - 1;
        let digit = hex_digit(digits[k]);
        proof {
            let v = hash as nat / pow16(k as nat);
            lemma_pow16_positive(k as nat);
            lemma_div_16_twice(hash as nat, k as nat);
            lemma_hex_digits_step(v, (16 - (k + 1)) as nat);
        }
        text.append(digit);
    }
    assert(pow16(0) == 1);
    assert(hash as nat / 1 == hash as nat);
    text
}

/// The cache file that the hash `hash` names.
pub fn cache_file_for(hash: u64) -> (path: String)
    ensures
        path@ == cache_file(hash),
{
    let mut path = String::from_str("target/eternal-debug-cache/");
    let digits = hex16(hash);
    path.append(digits.as_str());
    path.append(".json");
    path
}

/// The cache file for an input, given its canonical path, its size in bytes
/// and its modification time in whole seconds since the Unix epoch. The name
/// is a hash of `ANALYSIS_CACHE_VERSION` and these three values, in that
/// order.
pub fn cache_path(canonical: &PathBuf, len: u64, modified: u64) -> (path: String)
    ensures
        exists|hash: u64| path@ == cache_file(hash),
{
    let mut hasher = DefaultHasher::new();
    feed_u32(&mut hasher, ANALYSIS_CACHE_VERSION);
    feed_path(&mut hasher, canonical);
    feed_u64(&mut hasher, len);
    feed_u64(&mut hasher, modified);
    let hash = hasher.finish();
    cache_file_for(hash)
}

} // verus!
