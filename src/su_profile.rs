use vstd::prelude::*;
use vstd::string::StringSliceAdditionalSpecFns;

verus! {

/// Width of the security-context field of a privilege profile.
pub const SUPERCALL_SCONTEXT_LEN: usize = 0x60;

/// The bytes of `b` cut or NUL-padded to exactly `n` bytes.
pub open spec fn fixed_field(b: Seq<u8>, n: nat) -> Seq<u8> {
    Seq::new(n, |i: int| if i < b.len() { b[i] } else { 0u8 })
}

/// A privilege profile as the kernel side reads it: the uid to act on, the
/// uid to become, and a NUL-padded security context.
pub struct SuProfile {
    pub uid: i32,
    pub to_uid: i32,
    pub scontext: [u8; SUPERCALL_SCONTEXT_LEN],
}

/// Encodes `s` as UTF-8 into a fixed-width field, truncating or NUL-padding.
pub fn convert_string_to_u8_array(s: &str) -> (r: [u8; SUPERCALL_SCONTEXT_LEN])
    ensures
        r@ == fixed_field(s.spec_bytes(), SUPERCALL_SCONTEXT_LEN as nat),
{
    let mut out = [0u8; SUPERCALL_SCONTEXT_LEN];
    let bytes = s.as_bytes();
    let len: usize = if bytes.len() < SUPERCALL_SCONTEXT_LEN {
        bytes.len()
    } else {
        SUPERCALL_SCONTEXT_LEN
    };
    let mut i: usize = 0;
    while i < len
        invariant
            len <= bytes@.len(),
            len <= SUPERCALL_SCONTEXT_LEN,
            i <= len,
            bytes@ == s.spec_bytes(),
            out@.len() == SUPERCALL_SCONTEXT_LEN,
            forall|j: int| 0 <= j < i ==> out@[j] == bytes@[j],
            forall|j: int| i <= j < SUPERCALL_SCONTEXT_LEN ==> out@[j] == 0u8,
        decreases len - i,
    {
        out[i] = bytes[i];
        i = i + 1;
    }
    assert(out@ =~= fixed_field(s.spec_bytes(), SUPERCALL_SCONTEXT_LEN as nat));
    out
}

impl SuProfile {
    /// A profile for `uid`, becoming `to_uid` under the security context `scontext`.
    pub fn new(uid: i32, to_uid: i32, scontext: &str) -> (r: Self)
        ensures
            r.uid == uid,
            r.to_uid == to_uid,
            r.scontext@ == fixed_field(scontext.spec_bytes(), SUPERCALL_SCONTEXT_LEN as nat),
    {
        SuProfile { uid, to_uid, scontext: convert_string_to_u8_array(scontext) }
    }
}

} // verus!
