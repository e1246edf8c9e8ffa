//! Core of a small single-user operating-system kernel: a volatile in-memory
//! hierarchical filesystem, the line-editing command shell that drives it, and
//! the text-mode display model both depend on.
//!
//! Text is a fixed single-byte character set, so every name, path and file
//! content is a byte string (`Vec<u8>` / `&[u8]`).

use vstd::prelude::*;

pub mod cli;
pub mod ramfs;
pub mod vga_buffer;

verus! {

/// Byte-string equality, the comparison every name lookup rests on.
pub fn bytes_eq(a: &[u8], b: &[u8]) -> (r: bool)
    ensures
        r <==> a@ == b@,
{
    if a.len() != b.len() {
        assert(a@.len() != b@.len());
        return false;
    }
    let mut i: usize = 0;
    while i < a.len()
        invariant
            i <= a@.len(),
            a@.len() == b@.len(),
            forall|j: int| 0 <= j < i ==> a@[j] == b@[j],
        decreases a@.len() - i,
    {
        if a[i] != b[i] {
            return false;
        }
        i += 1;
    }
    proof {
        assert(a@ =~= b@);
    }
    true
}

} // verus!
