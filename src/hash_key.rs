//! Keys of the chained hash map: equality and hashing both depend only on
//! the key's view.
use std::collections::hash_map::DefaultHasher;
use std::hash::Hasher;
use vstd::prelude::*;
use vstd::std_specs::hash::DefaultHasherAdditionalSpecFns;
use vstd::string::StringSliceAdditionalSpecFns;

verus! {

pub trait HashKey: View + Sized {
    /// The hash of a key with view `v`.
    spec fn hash_spec(v: Self::V) -> u64;

    fn same_key(&self, other: &Self) -> (r: bool)
        ensures
            r == (self@ == other@),
    ;

    fn key_hash(&self) -> (h: u64)
        ensures
            h == Self::hash_spec(self@),
    ;
}

/// The `DefaultHasher` digest of the UTF-8 bytes of a string holding `s`.
pub open spec fn text_hash(s: Seq<char>) -> u64 {
    let t = choose|t: &str| t@ == s;
    DefaultHasher::spec_finish(seq![t.spec_bytes()])
}

fn hash_text(s: &str) -> (h: u64)
    ensures
        h == text_hash(s@),
{
    let mut hasher = DefaultHasher::new();
    hasher.write(s.as_bytes());
    hasher.finish()
}

/// Relies on `<str as PartialEq>::eq`: two string slices are equal exactly
/// when they hold the same characters.
#[verifier::external_body]
fn text_eq(a: &str, b: &str) -> (r: bool)
    ensures
        r == (a@ == b@),
{
    a == b
}

impl HashKey for String {
    open spec fn hash_spec(v: Seq<char>) -> u64 {
        text_hash(v)
    }

    fn same_key(&self, other: &Self) -> (r: bool) {
        <String as PartialEq>::eq(self, other)
    }

    fn key_hash(&self) -> (h: u64) {
        hash_text(self.as_str())
    }
}

impl<'a> HashKey for &'a str {
    open spec fn hash_spec(v: Seq<char>) -> u64 {
        text_hash(v)
    }

    fn same_key(&self, other: &Self) -> (r: bool) {
        text_eq(self, other)
    }

    fn key_hash(&self) -> (h: u64) {
        hash_text(self)
    }
}

} // verus!
