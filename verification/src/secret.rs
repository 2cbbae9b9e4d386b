//! A byte buffer for secrets, wiped before its storage is released.

use crate::bytes::boxed_copy;
use crate::bytes::into_boxed;
use vstd::prelude::*;
use vstd::std_specs::cmp::PartialEqSpecImpl;
use zeroize::Zeroize;
use zeroize::Zeroizing;

verus! {

/// A fixed-length buffer of secret bytes.
///
/// The bytes sit in a `zeroize::Zeroizing<Box<[u8]>>`: a boxed slice never
/// reallocates, so no copy of the secret is left behind in freed memory, and
/// `Zeroizing` overwrites the bytes with zeros when the buffer is dropped, on
/// every path out of a scope.
#[verifier::external_body]
#[derive(Debug, Eq)]
pub struct Secret {
    data: Zeroizing<Box<[u8]>>,
}

/// The bytes a `Secret` holds.
pub uninterp spec fn secret_bytes(secret: Secret) -> Seq<u8>;

/// `len` zero bytes.
pub open spec fn zeros(len: nat) -> Seq<u8> {
    Seq::new(len, |i: int| 0u8)
}

/// `Zeroizing::new`: moves the box into the wrapper, unchanged.
#[verifier::external_body]
fn wrap(data: Box<[u8]>) -> (secret: Secret)
    ensures
        secret_bytes(secret) == data@,
{
    Secret { data: Zeroizing::new(data) }
}

/// `Deref` of `Zeroizing`: a view of the whole byte range.
#[verifier::external_body]
fn borrow(secret: &Secret) -> (bytes: &[u8])
    ensures
        bytes@ == secret_bytes(*secret),
{
    &secret.data
}

/// `DerefMut` of `Zeroizing`: the whole byte range, to be written in place.
/// The buffer holds afterwards what the caller left in the slice.
#[verifier::external_body]
fn borrow_mut(secret: &mut Secret) -> (bytes: &mut [u8])
    ensures
        bytes@ == secret_bytes(*old(secret)),
        final(bytes)@ == secret_bytes(*final(secret)),
{
    &mut secret.data
}

/// `Zeroize::zeroize` of `Zeroizing<Box<[u8]>>`: sets every byte to zero and
/// keeps the length.
#[verifier::external_body]
fn wipe(secret: &mut Secret)
    ensures
        secret_bytes(*final(secret)) == zeros(secret_bytes(*old(secret)).len()),
{
    secret.data.zeroize()
}

/// `Clone` of `Zeroizing`: clones the box into a new `Zeroizing`, so the copy
/// is wiped on drop as well.
#[verifier::external_body]
fn duplicate(secret: &Secret) -> (copy: Secret)
    ensures
        secret_bytes(copy) == secret_bytes(*secret),
{
    Secret { data: secret.data.clone() }
}

impl View for Secret {
    type V = Seq<u8>;

    open spec fn view(&self) -> Seq<u8> {
        secret_bytes(*self)
    }
}

impl Clone for Secret {
    fn clone(&self) -> (copy: Self)
        ensures
            copy@ == self@,
    {
        duplicate(self)
    }
}

impl PartialEq for Secret {
    /// Compares the byte contents. Every byte is looked at, wherever the first
    /// difference lies.
    fn eq(&self, other: &Self) -> (equal: bool) {
        let mine = self.expose();
        let theirs = other.expose();
        if mine.len() != theirs.len() {
            return false;
        }
        let mut equal = true;
        let mut i: usize = 0;
        while i < mine.len()
            invariant
                i <= mine@.len(),
                mine@.len() == theirs@.len(),
                equal <==> forall|j: int| 0 <= j < i ==> mine@[j] == theirs@[j],
            decreases mine@.len() - i,
        {
            if mine[i] != theirs[i] {
                equal = false;
            }
            i += 1;
        }
        assert(equal <==> mine@ =~= theirs@);
        equal
    }
}

impl PartialEqSpecImpl for Secret {
    open spec fn obeys_eq_spec() -> bool {
        true
    }

    open spec fn eq_spec(&self, other: &Self) -> bool {
        self@ == other@
    }
}

impl Secret {
    /// A buffer of `len` zero bytes.
    pub fn zero(len: usize) -> (secret: Self)
        ensures
            secret@ == zeros(len as nat),
    {
        let bytes: Vec<u8> = vec![0u8; len];
        assert(bytes@ == zeros(len as nat));
        wrap(into_boxed(bytes))
    }

    /// Takes ownership of `data`. The caller keeps no other copy of it.
    pub fn new(data: Box<[u8]>) -> (secret: Self)
        ensures
            secret@ == data@,
    {
        wrap(data)
    }

    /// The whole byte range, to read.
    pub fn expose(&self) -> (bytes: &[u8])
        ensures
            bytes@ == self@,
    {
        borrow(self)
    }

    /// The whole byte range, to write in place. The length cannot change.
    pub fn expose_mut(&mut self) -> (bytes: &mut [u8])
        ensures
            bytes@ == old(self)@,
            final(bytes)@ == final(self)@,
    {
        borrow_mut(self)
    }

    /// The number of bytes.
    pub fn len(&self) -> (len: usize)
        ensures
            len == self@.len(),
    {
        borrow(self).len()
    }

    /// Whether the buffer holds no byte.
    pub fn is_empty(&self) -> (empty: bool)
        ensures
            empty <==> self@.len() == 0,
    {
        borrow(self).len() == 0
    }

    /// Overwrites every byte with zero. The length stays.
    pub fn zeroize(&mut self)
        ensures
            final(self)@ == zeros(old(self)@.len()),
    {
        wipe(self)
    }

    /// A new buffer that owns a copy of the first `len` bytes.
    pub fn truncate(&self, len: usize) -> (prefix: Self)
        requires
            len <= self@.len(),
        ensures
            prefix@ == self@.subrange(0, len as int),
    {
        let bytes = borrow(self);
        wrap(boxed_copy(vstd::slice::slice_subrange(bytes, 0, len)))
    }
}

} // verus!
