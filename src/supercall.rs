//! The pure part of the privileged-call protocol: how a call's command word
//! is formed, which keys may be sent, and how a raw return value reads.

use vstd::prelude::*;

verus! {

/// Marks a command word as one of this protocol's, in bits 16 to 31.
pub const SUPERCALL_MAGIC: i64 = 0x1158;
/// The error code for an invalid argument.
pub const EINVAL: i32 = 22;

/// A handle on the privileged component, tagged with the protocol version
/// that its calls announce.
pub struct SuperCall {
    pub version_code: i64,
}

impl SuperCall {
    /// A handle for protocol version `major.minor.patch`, packed as
    /// `major << 16 | minor << 8 | patch`.
    pub fn new(major: i64, minor: i64, patch: i64) -> (r: Self)
        ensures
            r.version_code == (major << 16) | (minor << 8) | patch,
            0 <= major < 0x8000 && 0 <= minor < 0x100 && 0 <= patch < 0x100 ==> r.version_code
                == major * 0x10000 + minor * 0x100 + patch,
    {
        let v = (major << 16) | (minor << 8) | patch;
        assert(0 <= major < 0x8000 && 0 <= minor < 0x100 && 0 <= patch < 0x100 ==> v == major
            * 0x10000 + minor * 0x100 + patch) by (bit_vector)
            requires
                v == (major << 16) | (minor << 8) | patch,
        ;
        SuperCall { version_code: v }
    }

    /// The command word of a call: the version in the upper 32 bits, the
    /// magic in bits 16 to 31, and the low 16 bits of `cmd`.
    pub fn ver_and_cmd(&self, cmd: i64) -> (r: i64)
        ensures
            r == (self.version_code << 32) | (SUPERCALL_MAGIC << 16) | (cmd & 0xFFFF),
            0 <= self.version_code < 0x8000_0000 ==> r == self.version_code * 0x1_0000_0000
                + SUPERCALL_MAGIC * 0x10000 + cmd as int % 0x10000,
    {
        let vc = self.version_code;
        let r = (vc << 32) | (SUPERCALL_MAGIC << 16) | (cmd & 0xFFFF);
        assert(0 <= vc < 0x8000_0000 ==> r == vc * 0x1_0000_0000 + 0x1158 * 0x10000 + cmd as int
            % 0x10000) by (bit_vector)
            requires
                r == (vc << 32) | (0x1158i64 << 16) | (cmd & 0xFFFF),
        ;
        r
    }

    /// Rejects an empty key with `EINVAL` before any call is made.
    pub fn check_key(&self, key: &[u8]) -> (r: Result<(), i32>)
        ensures
            r == if key@.len() == 0 {
                Err::<(), i32>(EINVAL)
            } else {
                Ok(())
            },
    {
        if key.len() == 0 {
            Err(EINVAL)
        } else {
            Ok(())
        }
    }
}

/// Reads a raw return value: a negative value is the negated error code.
pub fn error_handler(ret: i64) -> (r: Result<i64, u64>)
    ensures
        ret >= 0 ==> r == Ok::<i64, u64>(ret),
        ret < 0 ==> r is Err && r->Err_0 as int == -(ret as int),
{
    if ret >= 0 {
        Ok(ret)
    } else if ret == i64::MIN {
        Err(0x8000_0000_0000_0000u64)
    } else {
        Err((-ret) as u64)
    }
}


/// The packed `offset`/`length` argument of a kernel-storage access: the
/// offset in the upper 32 bits, the length in the lower.
pub fn pack_offset_len(offset: i32, dlen: i32) -> (r: i64)
    ensures
        r == ((offset as i64) << 32) | (dlen as i64),
        dlen >= 0 ==> r == offset as int * 0x1_0000_0000 + dlen as int,
{
    let o = offset as i64;
    let d = dlen as i64;
    let r = (o << 32) | d;
    assert(0 <= d < 0x8000_0000 && -0x8000_0000 <= o < 0x8000_0000 ==> r == o * 0x1_0000_0000
        + d) by (bit_vector)
        requires
            r == (o << 32) | d,
    ;
    r
}

} // verus!
