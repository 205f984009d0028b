//! Names of configuration variables.
//!
//! A name is a sequence of bytes. Names are compared without regard to the
//! case of ASCII letters: every name is brought to lower case before it is
//! stored or looked up.

use vstd::prelude::*;
use vstd::string::StringSliceAdditionalSpecFns;

verus! {

/// The lower-case form of an ASCII letter; every other byte unchanged.
pub open spec fn lower(b: u8) -> u8 {
    if 65 <= b <= 90 {
        (b + 32) as u8
    } else {
        b
    }
}

/// The normal form of a name: each byte in lower case.
pub open spec fn normalize(name: Seq<u8>) -> Seq<u8> {
    Seq::new(name.len(), |i: int| lower(name[i]))
}

/// Whether a name is in normal form, that is, holds no upper-case ASCII
/// letter.
pub open spec fn is_normal(name: Seq<u8>) -> bool {
    forall|i: int| 0 <= i < name.len() ==> !(65 <= #[trigger] name[i] <= 90)
}

/// The key under which a variable with the textual name `name` is stored:
/// the normal form of the name's UTF-8 encoding.
pub open spec fn key_of(name: &str) -> Seq<u8> {
    normalize(name.spec_bytes())
}

/// Normalizing yields a name in normal form, of the same length.
pub proof fn normalize_is_normal(name: Seq<u8>)
    ensures
        is_normal(normalize(name)),
        normalize(name).len() == name.len(),
{
}

/// A name in normal form is its own normal form, so normalizing twice is
/// the same as normalizing once.
pub proof fn normalize_is_idempotent(name: Seq<u8>)
    ensures
        is_normal(name) ==> normalize(name) == name,
        normalize(normalize(name)) == normalize(name),
{
    if is_normal(name) {
        assert(normalize(name) =~= name);
    }
    assert(normalize(normalize(name)) =~= normalize(name));
}

/// The lower-case form of one byte.
pub fn to_lower(b: u8) -> (r: u8)
    ensures
        r == lower(b),
{
    if 65 <= b && b <= 90 {
        b + 32
    } else {
        b
    }
}

/// The normal form of `name`, as a new vector.
pub fn normalized(name: &[u8]) -> (out: Vec<u8>)
    ensures
        out@ == normalize(name@),
{
    let mut out: Vec<u8> = Vec::new();
    let mut i: usize = 0;
    while i < name.len()
        invariant
            i <= name.len(),
            out@.len() == i,
            forall|k: int| 0 <= k < i ==> out@[k] == lower(name@[k]),
        decreases name.len() - i,
    {
        out.push(to_lower(name[i]));
        i += 1;
    }
    assert(out@ =~= normalize(name@));
    out
}

/// Whether two byte strings hold the same bytes.
pub fn same_bytes(a: &[u8], b: &[u8]) -> (r: bool)
    ensures
        r == (a@ == b@),
{
    if a.len() != b.len() {
        return false;
    }
    let mut i: usize = 0;
    while i < a.len()
        invariant
            i <= a.len(),
            a.len() == b.len(),
            forall|k: int| 0 <= k < i ==> a@[k] == b@[k],
        decreases a.len() - i,
    {
        if a[i] != b[i] {
            return false;
        }
        i += 1;
    }
    assert(a@ =~= b@);
    true
}

/// A copy of `bytes`.
pub fn copy_bytes(bytes: &[u8]) -> (out: Vec<u8>)
    ensures
        out@ == bytes@,
{
    let mut out: Vec<u8> = Vec::new();
    let mut i: usize = 0;
    while i < bytes.len()
        invariant
            i <= bytes.len(),
            out@ == bytes@.subrange(0, i as int),
        decreases bytes.len() - i,
    {
        out.push(bytes[i]);
        assert(out@ =~= bytes@.subrange(0, i + 1));
        i += 1;
    }
    assert(bytes@.subrange(0, i as int) =~= bytes@);
    out
}

} // verus!
