//! Cache-key hashing with std's `DefaultHasher`.
//!
//! The hasher is treated as a log of the values written into it: each `write_*`
//! appends an item (a tag and the value), and `finish` is named as a function of
//! the whole log. So the same values written in the same order give the same
//! hash; nothing is claimed about distinct logs.
use vstd::prelude::*;
use std::collections::hash_map::DefaultHasher;

verus! {

/// The values written into the hasher so far, in order, each as a tagged item.
pub uninterp spec fn hasher_log(h: DefaultHasher) -> Seq<Seq<int>>;

/// `DefaultHasher::finish` of a hasher into which exactly the logged values were written.
pub uninterp spec fn log_digest(log: Seq<Seq<int>>) -> u64;

pub open spec fn str_item(s: Seq<char>) -> Seq<int> {
    seq![0int] + s.map_values(|c: char| c as int)
}

pub open spec fn u64_item(v: u64) -> Seq<int> {
    seq![1int, v as int]
}

pub open spec fn u8_item(v: u8) -> Seq<int> {
    seq![2int, v as int]
}

pub open spec fn bool_item(v: bool) -> Seq<int> {
    seq![3int, if v { 1int } else { 0int }]
}

pub open spec fn usize_item(v: usize) -> Seq<int> {
    seq![4int, v as int]
}

pub open spec fn u32_item(v: u32) -> Seq<int> {
    seq![5int, v as int]
}

/// `DefaultHasher::new`: every new hasher starts from the same state.
#[verifier::external_body]
pub(crate) fn hasher_new() -> (h: DefaultHasher)
    ensures
        hasher_log(h) == Seq::<Seq<int>>::empty(),
{
    DefaultHasher::new()
}

/// `<str as Hash>::hash`.
#[verifier::external_body]
pub(crate) fn hash_str(h: &mut DefaultHasher, s: &str)
    ensures
        hasher_log(*final(h)) == hasher_log(*old(h)).push(str_item(s@)),
{
    std::hash::Hash::hash(s, h)
}

/// `<u64 as Hash>::hash`.
#[verifier::external_body]
pub(crate) fn hash_u64(h: &mut DefaultHasher, v: u64)
    ensures
        hasher_log(*final(h)) == hasher_log(*old(h)).push(u64_item(v)),
{
    std::hash::Hash::hash(&v, h)
}

/// `<u8 as Hash>::hash`.
#[verifier::external_body]
pub(crate) fn hash_u8(h: &mut DefaultHasher, v: u8)
    ensures
        hasher_log(*final(h)) == hasher_log(*old(h)).push(u8_item(v)),
{
    std::hash::Hash::hash(&v, h)
}

/// `<bool as Hash>::hash`.
#[verifier::external_body]
pub(crate) fn hash_bool(h: &mut DefaultHasher, v: bool)
    ensures
        hasher_log(*final(h)) == hasher_log(*old(h)).push(bool_item(v)),
{
    std::hash::Hash::hash(&v, h)
}

/// `<usize as Hash>::hash`.
#[verifier::external_body]
pub(crate) fn hash_usize(h: &mut DefaultHasher, v: usize)
    ensures
        hasher_log(*final(h)) == hasher_log(*old(h)).push(usize_item(v)),
{
    std::hash::Hash::hash(&v, h)
}

/// `<u32 as Hash>::hash`.
#[verifier::external_body]
pub(crate) fn hash_u32(h: &mut DefaultHasher, v: u32)
    ensures
        hasher_log(*final(h)) == hasher_log(*old(h)).push(u32_item(v)),
{
    std::hash::Hash::hash(&v, h)
}

pub open spec fn isize_item(v: isize) -> Seq<int> {
    seq![6int, v as int]
}

/// `<isize as Hash>::hash` (how derived `Hash` writes an enum discriminant).
#[verifier::external_body]
pub(crate) fn hash_isize(h: &mut DefaultHasher, v: isize)
    ensures
        hasher_log(*final(h)) == hasher_log(*old(h)).push(isize_item(v)),
{
    std::hash::Hash::hash(&v, h)
}

/// `Hasher::finish` for `DefaultHasher`.
#[verifier::external_body]
pub(crate) fn hasher_finish(h: &DefaultHasher) -> (r: u64)
    ensures
        r == log_digest(hasher_log(*h)),
{
    std::hash::Hasher::finish(h)
}

} // verus!
