//! Digests of elements and of pairs of digests.
//!
//! A digest is the decimal text of a 64-bit value computed by std's
//! `DefaultHasher`. Every `DefaultHasher::new()` starts from the same state, so
//! both hash values below depend on their arguments alone.
use std::collections::hash_map::DefaultHasher;
use std::hash::{Hash, Hasher};
use vstd::prelude::*;

verus! {

/// The value a fresh `DefaultHasher` finishes with after hashing a string
/// through `Hash for str`.
pub uninterp spec fn text_hash(s: Seq<char>) -> u64;

/// The value a fresh `DefaultHasher` finishes with after being written the
/// bytes of `left` and then those of `right`.
pub uninterp spec fn pair_hash(left: Seq<char>, right: Seq<char>) -> u64;

/// The character of a decimal digit.
pub open spec fn digit_char(d: nat) -> char {
    seq!['0', '1', '2', '3', '4', '5', '6', '7', '8', '9'][d as int]
}

/// The decimal notation of `n`: no sign, no leading zeros.
pub open spec fn decimal_text(n: nat) -> Seq<char>
    decreases n,
{
    if n < 10 {
        seq![digit_char(n)]
    } else {
        decimal_text(n / 10).push(digit_char(n % 10))
    }
}

/// The digest of an element that hashes as the text `s`.
pub open spec fn leaf_digest(s: Seq<char>) -> Seq<char> {
    decimal_text(text_hash(s) as nat)
}

/// The digest of an internal node whose children have digests `left` and `right`.
pub open spec fn combine(left: Seq<char>, right: Seq<char>) -> Seq<char> {
    decimal_text(pair_hash(left, right) as nat)
}

/// Relies on `DefaultHasher::new`, `Hash for str` and `Hasher::finish`: hashing
/// a string with a fresh default hasher.
#[verifier::external_body]
fn hash_text(s: &str) -> (r: u64)
    ensures
        r == text_hash(s@),
{
    let mut hasher = DefaultHasher::new();
    s.hash(&mut hasher);
    hasher.finish()
}

/// Relies on `DefaultHasher::new`, `Hasher::write` and `Hasher::finish`: hashing
/// the bytes of two strings, left then right, with a fresh default hasher.
#[verifier::external_body]
fn hash_pair(left: &str, right: &str) -> (r: u64)
    ensures
        r == pair_hash(left@, right@),
{
    let mut hasher = DefaultHasher::new();
    hasher.write(left.as_bytes());
    hasher.write(right.as_bytes());
    hasher.finish()
}

/// Relies on `ToString for u64`, which writes the value in decimal.
#[verifier::external_body]
fn decimal(n: u64) -> (r: String)
    ensures
        r@ == decimal_text(n as nat),
{
    n.to_string()
}

/// The digest of an element that hashes as the text `s`.
pub fn hash_element(s: &str) -> (r: String)
    ensures
        r@ == leaf_digest(s@),
{
    decimal(hash_text(s))
}

/// The digest of a node from the digests of its left and right children.
pub fn hash_nodes(left: &str, right: &str) -> (r: String)
    ensures
        r@ == combine(left@, right@),
{
    decimal(hash_pair(left, right))
}

/// An element that can be stored in a tree: it hashes as a text.
pub trait Hashable {
    /// The text the element hashes as.
    spec fn text(&self) -> Seq<char>;

    /// The element's digest.
    fn digest(&self) -> (r: String)
        ensures
            r@ == leaf_digest(self.text()),
    ;
}

impl<'a> Hashable for &'a str {
    open spec fn text(&self) -> Seq<char> {
        (*self)@
    }

    fn digest(&self) -> (r: String) {
        hash_element(*self)
    }
}

impl Hashable for String {
    open spec fn text(&self) -> Seq<char> {
        self@
    }

    fn digest(&self) -> (r: String) {
        hash_element(self.as_str())
    }
}

} // verus!
