//! A view of bytes that belong to somebody else: where they start and how
//! many there are.
use vstd::prelude::*;
use vstd::slice::slice_subrange;

verus! {

/// A run of bytes, named by where it starts and by its length. A value
/// without a start stands for no bytes.
#[derive(Debug, Copy, Clone)]
pub struct MDBX_val<'a> {
    /// The number of bytes.
    pub iov_len: usize,
    /// The memory that the bytes are the beginning of; none for a null
    /// value.
    pub iov_base: Option<&'a [u8]>,
}

impl<'a> MDBX_val<'a> {
    /// Whether the length lies within the memory.
    pub open spec fn wf(self) -> bool {
        self.iov_base matches Some(b) ==> self.iov_len <= b@.len()
    }

    /// The bytes that the value stands for: none for a null value or a
    /// length of zero, else the first `iov_len` bytes of the memory.
    pub open spec fn bytes(self) -> Seq<u8> {
        match self.iov_base {
            Some(b) => if self.iov_len == 0 {
                Seq::empty()
            } else {
                b@.subrange(0, self.iov_len as int)
            },
            None => Seq::empty(),
        }
    }
}

impl<'a> Default for MDBX_val<'a> {
    /// The null value.
    fn default() -> (v: MDBX_val<'a>)
        ensures
            v.iov_len == 0,
            v.iov_base is None,
    {
        MDBX_val { iov_base: None, iov_len: 0 }
    }
}

/// The value that stands for all of `bytes`.
pub fn bytes_to_val<'a>(bytes: &'a [u8]) -> (v: MDBX_val<'a>)
    ensures
        v.iov_len == bytes@.len(),
        v.iov_base == Some(bytes),
        v.wf(),
        v.bytes() == bytes@,
{
    assert(bytes@.subrange(0, bytes@.len() as int) =~= bytes@);
    MDBX_val { iov_base: Some(bytes), iov_len: bytes.len() }
}

/// The bytes that `val` stands for.
pub fn val_to_bytes<'a>(val: &MDBX_val<'a>) -> (r: &'a [u8])
    requires
        val.wf(),
    ensures
        r@ == val.bytes(),
{
    match val.iov_base {
        Some(b) => {
            if val.iov_len == 0 {
                let r = slice_subrange(b, 0, 0);
                assert(r@ =~= Seq::empty());
                r
            } else {
                slice_subrange(b, 0, val.iov_len)
            }
        },
        None => {
            let r: &'a [u8] = &[];
            assert(r@ =~= Seq::empty());
            r
        },
    }
}

} // verus!
