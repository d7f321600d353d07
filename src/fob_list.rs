//! Fixed-capacity containers for the credential list and the freshness token,
//! backed by `heapless` so that nothing allocates on the real-time path.
use vstd::prelude::*;

use vstd::string::StringSliceAdditionalSpecFns;

use crate::MAX_FOBS;

verus! {

/// Most bytes a freshness token holds.
pub const MAX_ETAG: usize = 64;

/// What a credential list holds, in order.
pub uninterp spec fn fob_list_items(l: FobList) -> Seq<u32>;

/// The bytes a freshness token holds.
pub uninterp spec fn etag_bytes(e: Etag) -> Seq<u8>;

/// A list of at most `MAX_FOBS` credentials.
#[verifier::external_body]
pub struct FobList {
    inner: heapless::Vec<u32, MAX_FOBS>,
}

/// A freshness token of at most `MAX_ETAG` bytes of UTF-8.
#[verifier::external_body]
pub struct Etag {
    inner: heapless::String<MAX_ETAG>,
}

impl View for FobList {
    type V = Seq<u32>;

    open spec fn view(&self) -> Seq<u32> {
        fob_list_items(*self)
    }
}

impl View for Etag {
    type V = Seq<u8>;

    open spec fn view(&self) -> Seq<u8> {
        etag_bytes(*self)
    }
}

impl FobList {
    /// Relies on heapless::Vec::new: the vector starts empty.
    #[verifier::external_body]
    fn empty_inner() -> (r: FobList)
        ensures
            fob_list_items(r) == Seq::<u32>::empty(),
    {
        FobList { inner: heapless::Vec::new() }
    }

    /// Relies on heapless::Vec::push: below capacity the item is appended,
    /// otherwise the vector is left as it was and the item handed back.
    #[verifier::external_body]
    fn push_inner(&mut self, fob: u32) -> (r: bool)
        ensures
            fob_list_items(*old(self)).len() < MAX_FOBS ==> r && fob_list_items(*final(self))
                == fob_list_items(*old(self)).push(fob),
            fob_list_items(*old(self)).len() >= MAX_FOBS ==> !r && fob_list_items(*final(self))
                == fob_list_items(*old(self)),
    {
        self.inner.push(fob).is_ok()
    }

    /// Relies on heapless::Vec::clear: the vector becomes empty.
    #[verifier::external_body]
    fn clear_inner(&mut self)
        ensures
            fob_list_items(*final(self)) == Seq::<u32>::empty(),
    {
        self.inner.clear()
    }

    /// Relies on heapless::Vec::as_slice: the stored items, never more than the capacity.
    #[verifier::external_body]
    fn slice_inner(&self) -> (r: &[u32])
        ensures
            r@ == fob_list_items(*self),
            r@.len() <= MAX_FOBS,
    {
        self.inner.as_slice()
    }

    /// An empty list.
    pub fn new() -> (r: FobList)
        ensures
            r@ == Seq::<u32>::empty(),
    {
        Self::empty_inner()
    }

    /// Appends a credential; `false` (and no change) when the list is full.
    pub fn push(&mut self, fob: u32) -> (r: bool)
        ensures
            old(self)@.len() < MAX_FOBS ==> r && final(self)@ == old(self)@.push(fob),
            old(self)@.len() >= MAX_FOBS ==> !r && final(self)@ == old(self)@,
    {
        self.push_inner(fob)
    }

    /// Removes every credential.
    pub fn clear(&mut self)
        ensures
            final(self)@ == Seq::<u32>::empty(),
    {
        self.clear_inner()
    }

    /// The credentials, in order.
    pub fn as_slice(&self) -> (r: &[u32])
        ensures
            r@ == self@,
            r@.len() <= MAX_FOBS,
    {
        self.slice_inner()
    }

    /// Number of credentials.
    pub fn len(&self) -> (r: usize)
        ensures
            r == self@.len(),
            r <= MAX_FOBS,
    {
        self.slice_inner().len()
    }

    /// The first `MAX_FOBS` credentials of `fobs`.
    pub fn from_slice(fobs: &[u32]) -> (r: FobList)
        ensures
            r@ == fobs@.take(min_len(fobs@.len(), MAX_FOBS as nat) as int),
    {
        let mut list = Self::new();
        let n: usize = if fobs.len() < MAX_FOBS {
            fobs.len()
        } else {
            MAX_FOBS
        };
        let mut i: usize = 0;
        while i < n
            invariant
                n <= fobs@.len(),
                n <= MAX_FOBS,
                i <= n,
                list@ == fobs@.take(i as int),
            decreases n - i,
        {
            list.push(fobs[i]);
            assert(fobs@.take(i + 1) == fobs@.take(i as int).push(fobs@[i as int]));
            i = i + 1;
        }
        list
    }

    /// A copy of the list.
    pub fn copy(&self) -> (r: FobList)
        ensures
            r@ == self@,
    {
        let s = self.as_slice();
        let r = Self::from_slice(s);
        assert(s@.take(s@.len() as int) == s@);
        r
    }
}

/// The smaller of two lengths.
pub open spec fn min_len(a: nat, b: nat) -> nat {
    if a < b {
        a
    } else {
        b
    }
}

impl Etag {
    /// Relies on heapless::String::new: the string starts empty.
    #[verifier::external_body]
    fn empty_inner() -> (r: Etag)
        ensures
            etag_bytes(r) == Seq::<u8>::empty(),
    {
        Etag { inner: heapless::String::new() }
    }

    /// Relies on heapless::String::push_str: the bytes of `s` are appended when
    /// they fit in the capacity; otherwise nothing changes and it fails.
    #[verifier::external_body]
    fn push_str_inner(&mut self, s: &str) -> (r: bool)
        ensures
            etag_bytes(*old(self)).len() + s.spec_bytes().len() <= MAX_ETAG ==> r && etag_bytes(
                *final(self),
            ) == etag_bytes(*old(self)) + s.spec_bytes(),
            etag_bytes(*old(self)).len() + s.spec_bytes().len() > MAX_ETAG ==> !r && etag_bytes(
                *final(self),
            ) == etag_bytes(*old(self)),
    {
        self.inner.push_str(s).is_ok()
    }

    /// Relies on heapless::String::clear: the string becomes empty.
    #[verifier::external_body]
    fn clear_inner(&mut self)
        ensures
            etag_bytes(*final(self)) == Seq::<u8>::empty(),
    {
        self.inner.clear()
    }

    /// Relies on heapless::String::as_str: the stored text, never more than the capacity.
    #[verifier::external_body]
    fn str_inner(&self) -> (r: &str)
        ensures
            r.spec_bytes() == etag_bytes(*self),
            r.spec_bytes().len() <= MAX_ETAG,
    {
        self.inner.as_str()
    }

    /// An empty token.
    pub fn new() -> (r: Etag)
        ensures
            r@ == Seq::<u8>::empty(),
    {
        Self::empty_inner()
    }

    /// Appends `s` when it fits; `false` (and no change) otherwise.
    pub fn push_str(&mut self, s: &str) -> (r: bool)
        ensures
            old(self)@.len() + s.spec_bytes().len() <= MAX_ETAG ==> r && final(self)@ == old(
                self,
            )@ + s.spec_bytes(),
            old(self)@.len() + s.spec_bytes().len() > MAX_ETAG ==> !r && final(self)@ == old(
                self,
            )@,
    {
        self.push_str_inner(s)
    }

    /// Empties the token.
    pub fn clear(&mut self)
        ensures
            final(self)@ == Seq::<u8>::empty(),
    {
        self.clear_inner()
    }

    /// The token's text.
    pub fn as_str(&self) -> (r: &str)
        ensures
            r.spec_bytes() == self@,
            r.spec_bytes().len() <= MAX_ETAG,
    {
        self.str_inner()
    }

    /// The token holding `s`, or empty when `s` is longer than `MAX_ETAG` bytes.
    pub fn from_str(s: &str) -> (r: Etag)
        ensures
            s.spec_bytes().len() <= MAX_ETAG ==> r@ == s.spec_bytes(),
            s.spec_bytes().len() > MAX_ETAG ==> r@ == Seq::<u8>::empty(),
    {
        let mut e = Self::new();
        e.push_str(s);
        proof {
            assert(Seq::<u8>::empty() + s.spec_bytes() =~= s.spec_bytes());
        }
        e
    }

    /// A copy of the token.
    pub fn copy(&self) -> (r: Etag)
        ensures
            r@ == self@,
    {
        Self::from_str(self.as_str())
    }
}

} // verus!
