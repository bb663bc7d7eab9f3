//! The table of open file handles, kept in a `slab::Slab`: a handle is the slab key
//! of the inode that was opened under it.

use vstd::prelude::*;
use slab::Slab;

verus! {

/// `slab::Slab`, the vector-backed table of values under small integer keys that
/// reuses the keys of removed values.
#[verifier::external_type_specification]
#[verifier::external_body]
#[verifier::reject_recursive_types(T)]
pub struct ExSlab<T>(Slab<T>);

/// The values that a slab holds, by key.
pub uninterp spec fn slab_contents(s: Slab<u64>) -> Map<usize, u64>;

/// `Slab::new`: a slab that holds nothing.
#[verifier::external_body]
fn slab_new() -> (r: Slab<u64>)
    ensures
        slab_contents(r).is_empty(),
{
    Slab::new()
}

/// `Slab::insert`: stores `v` under a key that held nothing and returns that key.
/// (The slab's vector can fail to grow, as any vector can; that is not stated.)
#[verifier::external_body]
fn slab_insert(s: &mut Slab<u64>, v: u64) -> (k: usize)
    ensures
        !slab_contents(*old(s)).contains_key(k),
        slab_contents(*final(s)) == slab_contents(*old(s)).insert(k, v),
{
    s.insert(v)
}

/// `Slab::get`: the value under `k`, if any.
#[verifier::external_body]
fn slab_get(s: &Slab<u64>, k: usize) -> (r: Option<u64>)
    ensures
        r == if slab_contents(*s).contains_key(k) {
            Some(slab_contents(*s)[k])
        } else {
            None
        },
{
    s.get(k).copied()
}

/// `Slab::remove`: takes out the value under `k`, which must hold one (the function
/// panics otherwise).
#[verifier::external_body]
fn slab_remove(s: &mut Slab<u64>, k: usize) -> (r: u64)
    requires
        slab_contents(*old(s)).contains_key(k),
    ensures
        r == slab_contents(*old(s))[k],
        slab_contents(*final(s)) == slab_contents(*old(s)).remove(k),
{
    s.remove(k)
}

/// The open file handles: each maps to the inode that was opened under it.
pub struct Handles {
    slab: Slab<u64>,
}

impl Handles {
    /// The open handles and their inodes.
    pub closed spec fn view(&self) -> Map<usize, u64> {
        slab_contents(self.slab)
    }

    /// No handle is open.
    pub fn new() -> (r: Self)
        ensures
            r.view() == Map::<usize, u64>::empty(),
    {
        Handles { slab: slab_new() }
    }

    /// Opens a new handle for `ino`: a key that was not open.
    pub fn open(&mut self, ino: u64) -> (k: usize)
        ensures
            !old(self).view().contains_key(k),
            final(self).view() == old(self).view().insert(k, ino),
    {
        slab_insert(&mut self.slab, ino)
    }

    /// The inode open under `k`, if `k` is open.
    pub fn get(&self, k: usize) -> (r: Option<u64>)
        ensures
            r == if self.view().contains_key(k) {
                Some(self.view()[k])
            } else {
                None
            },
    {
        slab_get(&self.slab, k)
    }

    /// Closes the open handle `k`.
    pub fn close(&mut self, k: usize) -> (r: u64)
        requires
            old(self).view().contains_key(k),
        ensures
            r == old(self).view()[k],
            final(self).view() == old(self).view().remove(k),
    {
        slab_remove(&mut self.slab, k)
    }
}

} // verus!
