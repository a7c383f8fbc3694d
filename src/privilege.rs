//! What the daemon asks of the privileged kernel component after a
//! reconciliation pass: which uids to revoke, grant and exclude.

use vstd::prelude::*;
use vstd::utf8::encode_utf8;
use crate::package::{configs_view, PackageConfig, PackageConfigView};
use crate::su_profile::{fixed_field, SuProfile, SUPERCALL_SCONTEXT_LEN};

verus! {

/// The root uid, never revoked.
pub const ROOT_UID: u32 = 0;
/// The shell uid, never revoked.
pub const SHELL_UID: u32 = 2000;

/// One call to make on the privileged component.
pub enum PrivilegeRequest {
    /// Grant privilege under this profile.
    Grant(SuProfile),
    /// Put this uid on the exclude list.
    Exclude(i32),
}

pub enum PrivilegeRequestView {
    Grant { uid: i32, to_uid: i32, scontext: Seq<u8> },
    Exclude(i32),
}

impl View for PrivilegeRequest {
    type V = PrivilegeRequestView;

    open spec fn view(&self) -> PrivilegeRequestView {
        match self {
            PrivilegeRequest::Grant(p) => PrivilegeRequestView::Grant {
                uid: p.uid,
                to_uid: p.to_uid,
                scontext: p.scontext@,
            },
            PrivilegeRequest::Exclude(u) => PrivilegeRequestView::Exclude(*u),
        }
    }
}

/// The request a row calls for: a grant for `allow=1, exclude=0`, an exclusion
/// for `allow=0, exclude=1`, and nothing for any other combination.
pub open spec fn request_of(c: PackageConfigView) -> Option<PrivilegeRequestView> {
    if c.allow == 1 && c.exclude == 0 {
        Some(
            PrivilegeRequestView::Grant {
                uid: c.uid,
                to_uid: c.to_uid,
                scontext: fixed_field(encode_utf8(c.sctx), SUPERCALL_SCONTEXT_LEN as nat),
            },
        )
    } else if c.allow == 0 && c.exclude == 1 {
        Some(PrivilegeRequestView::Exclude(c.uid))
    } else {
        None
    }
}

/// The requests of the rows, in row order.
pub open spec fn requests_of(cs: Seq<PackageConfigView>) -> Seq<PrivilegeRequestView>
    decreases cs.len(),
{
    if cs.len() == 0 {
        seq![]
    } else {
        let e = requests_of(cs.drop_last());
        match request_of(cs.last()) {
            Some(r) => e.push(r),
            None => e,
        }
    }
}

pub open spec fn requests_view(v: Seq<PrivilegeRequest>) -> Seq<PrivilegeRequestView> {
    v.map_values(|r: PrivilegeRequest| r@)
}

/// The grant and exclude requests for the rows, in row order.
pub fn privilege_requests(configs: &Vec<PackageConfig>) -> (r: Vec<PrivilegeRequest>)
    ensures
        requests_view(r@) == requests_of(configs_view(configs@)),
{
    let ghost cs = configs_view(configs@);
    let mut out: Vec<PrivilegeRequest> = Vec::new();
    let mut i: usize = 0;
    while i < configs.len()
        invariant
            i <= configs@.len(),
            cs == configs_view(configs@),
            requests_view(out@) == requests_of(cs.take(i as int)),
        decreases configs.len() - i,
    {
        proof {
            assert(cs.take(i + 1).drop_last() =~= cs.take(i as int));
            assert(cs[i as int] == configs@[i as int]@);
        }
        let c = &configs[i];
        let ghost before = out@;
        if c.allow == 1 && c.exclude == 0 {
            out.push(PrivilegeRequest::Grant(SuProfile::new(c.uid, c.to_uid, c.sctx.as_str())));
            assert(requests_view(out@) =~= requests_view(before).push(out@.last()@));
        } else if c.allow == 0 && c.exclude == 1 {
            out.push(PrivilegeRequest::Exclude(c.uid));
            assert(requests_view(out@) =~= requests_view(before).push(out@.last()@));
        }
        i = i + 1;
    }
    assert(cs.take(configs@.len() as int) =~= cs);
    out
}

/// The key can be handed to the kernel as a C string: present, with no NUL byte.
pub open spec fn key_usable(key: Option<Seq<char>>) -> bool {
    key matches Some(k) && !encode_utf8(k).contains(0u8)
}

/// The requests to make at boot: those of the reconciled rows, or none when
/// there is no usable key to make them with.
pub fn init_load_package_uid_config(configs: &Vec<PackageConfig>, superkey: &Option<String>) -> (r:
    Vec<PrivilegeRequest>)
    ensures
        requests_view(r@) == if key_usable(superkey.deep_view()) {
            requests_of(configs_view(configs@))
        } else {
            seq![]
        },
{
    let usable = match superkey {
        Some(k) => {
            let b = k.as_str().as_bytes();
            let mut i: usize = 0;
            let mut ok = true;
            while i < b.len()
                invariant
                    i <= b@.len(),
                    ok == !b@.take(i as int).contains(0u8),
                decreases b.len() - i,
            {
                let ghost t0 = b@.take(i as int);
                let ghost t1 = b@.take(i + 1);
                assert(t1 =~= t0.push(b@[i as int]));
                if b[i] == 0u8 {
                    assert(t1[i as int] == 0u8);
                    ok = false;
                } else {
                    proof {
                        if t1.contains(0u8) {
                            let j = choose|j: int| 0 <= j < t1.len() && t1[j] == 0u8;
                            assert(t0[j] == 0u8);
                        }
                        if t0.contains(0u8) {
                            let j = choose|j: int| 0 <= j < t0.len() && t0[j] == 0u8;
                            assert(t1[j] == 0u8);
                        }
                    }
                }
                i = i + 1;
            }
            assert(b@.take(b@.len() as int) =~= b@);
            ok
        },
        None => false,
    };
    if usable {
        privilege_requests(configs)
    } else {
        let out: Vec<PrivilegeRequest> = Vec::new();
        assert(requests_view(out@) =~= seq![]);
        out
    }
}

/// The granted uids to revoke before a full re-grant: all but root and shell.
pub fn uids_to_revoke(granted: &Vec<u32>) -> (r: Vec<u32>)
    ensures
        r@ == granted@.filter(|u: u32| u != ROOT_UID && u != SHELL_UID),
{
    let mut out: Vec<u32> = Vec::new();
    let mut i: usize = 0;
    while i < granted.len()
        invariant
            i <= granted@.len(),
            out@ == granted@.take(i as int).filter(|u: u32| u != ROOT_UID && u != SHELL_UID),
        decreases granted.len() - i,
    {
        proof {
            assert(granted@.take(i + 1).drop_last() =~= granted@.take(i as int));
            reveal(Seq::filter);
        }
        let u = granted[i];
        if u != ROOT_UID && u != SHELL_UID {
            out.push(u);
        }
        i = i + 1;
    }
    assert(granted@.take(granted@.len() as int) =~= granted@);
    out
}

} // verus!
