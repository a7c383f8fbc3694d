//! The kernel-patch-module registry: a byte store of fixed-layout records,
//! each `[32-byte name][status][stage][file name]`, separated by newlines.

use vstd::prelude::*;
use crate::su_profile::fixed_field;
use crate::text::{utf8_lossy, utf8_lossy_of};
use vstd::utf8::{decode_utf8, valid_utf8};

verus! {

pub const KPM_STAGE_BOOT_COMPLETED: u8 = 0;
pub const KPM_STAGE_SERVICE: u8 = 1;
pub const KPM_STAGE_POSTFS_DATA: u8 = 2;
pub const KPM_STAGE_POSTMOUNT: u8 = 3;
/// Stage code of a name that is no known stage.
pub const KPM_STAGE_UNKNOWN: u8 = 255;

/// Width of the name field of a record.
pub const KPM_NAME_LEN: usize = 32;
/// Shortest chunk that holds a record: name, status, stage and one more byte.
pub const KPM_RECORD_MIN_LEN: usize = 35;

pub open spec fn newline() -> u8 {
    10u8
}

/// The store cut after each newline, as a line reader delivers it: each chunk
/// keeps its newline, and the last one may lack it. `cur` is the chunk read so far.
pub open spec fn chunks_from(s: Seq<u8>, cur: Seq<u8>) -> Seq<Seq<u8>>
    decreases s.len(),
{
    if s.len() == 0 {
        if cur.len() == 0 {
            seq![]
        } else {
            seq![cur]
        }
    } else if s[0] == newline() {
        seq![cur.push(newline())] + chunks_from(s.drop_first(), seq![])
    } else {
        chunks_from(s.drop_first(), cur.push(s[0]))
    }
}

pub open spec fn chunks(s: Seq<u8>) -> Seq<Seq<u8>> {
    chunks_from(s, seq![])
}

pub open spec fn is_record(c: Seq<u8>) -> bool {
    c.len() >= KPM_RECORD_MIN_LEN
}

/// The chunks that are long enough to be records, in order.
pub open spec fn records_of(cs: Seq<Seq<u8>>) -> Seq<Seq<u8>>
    decreases cs.len(),
{
    if cs.len() == 0 {
        seq![]
    } else if is_record(cs.last()) {
        records_of(cs.drop_last()).push(cs.last())
    } else {
        records_of(cs.drop_last())
    }
}

/// The records of a store.
pub open spec fn store_records(s: Seq<u8>) -> Seq<Seq<u8>> {
    records_of(chunks(s))
}

/// The bytes of `b` without trailing NULs.
pub open spec fn trim_nul(b: Seq<u8>) -> Seq<u8>
    decreases b.len(),
{
    if b.len() > 0 && b.last() == 0u8 {
        trim_nul(b.drop_last())
    } else {
        b
    }
}

/// The match key of a module name: its bytes cut or NUL-padded to the name width.
pub open spec fn name_key(name: Seq<u8>) -> Seq<u8> {
    fixed_field(name, KPM_NAME_LEN as nat)
}

pub open spec fn record_key(c: Seq<u8>) -> Seq<u8> {
    c.take(KPM_NAME_LEN as int)
}

/// The file-name bytes of a record: what follows the stage byte, without
/// the terminating newline.
pub open spec fn record_file(c: Seq<u8>) -> Seq<u8> {
    if c.last() == newline() {
        c.subrange(34, c.len() - 1)
    } else {
        c.subrange(34, c.len() as int)
    }
}

/// A registered module as listed.
pub struct KpmEntry {
    pub name: String,
    pub enabled: bool,
    pub stage: u8,
    pub file_name: String,
}

pub struct KpmEntryView {
    pub name: Seq<char>,
    pub enabled: bool,
    pub stage: u8,
    pub file_name: Seq<char>,
}

impl View for KpmEntry {
    type V = KpmEntryView;

    open spec fn view(&self) -> KpmEntryView {
        KpmEntryView {
            name: self.name@,
            enabled: self.enabled,
            stage: self.stage,
            file_name: self.file_name@,
        }
    }
}

pub open spec fn entry_of(c: Seq<u8>) -> KpmEntryView {
    KpmEntryView {
        name: utf8_lossy_of(trim_nul(record_key(c))),
        enabled: c[32] & 1u8 != 0u8,
        stage: c[33],
        file_name: utf8_lossy_of(record_file(c)),
    }
}

pub open spec fn entries_view(v: Seq<KpmEntry>) -> Seq<KpmEntryView> {
    v.map_values(|e: KpmEntry| e@)
}

/// The modules registered in a store, in store order.
pub open spec fn store_entries(s: Seq<u8>) -> Seq<KpmEntryView> {
    store_records(s).map_values(|c: Seq<u8>| entry_of(c))
}

pub open spec fn chunks_view(v: Seq<Vec<u8>>) -> Seq<Seq<u8>> {
    v.map_values(|c: Vec<u8>| c@)
}

/// Cuts the store into chunks after each newline.
pub fn split_chunks(s: &[u8]) -> (r: Vec<Vec<u8>>)
    ensures
        chunks_view(r@) == chunks(s@),
{
    let mut out: Vec<Vec<u8>> = Vec::new();
    let mut cur: Vec<u8> = Vec::new();
    let mut i: usize = 0;
    assert(s@.skip(0) =~= s@);
    assert(cur@ =~= Seq::<u8>::empty());
    assert(chunks_view(out@) + chunks(s@) =~= chunks(s@));
    while i < s.len()
        invariant
            i <= s@.len(),
            chunks(s@) == chunks_view(out@) + chunks_from(s@.skip(i as int), cur@),
        decreases s.len() - i,
    {
        let b = s[i];
        proof {
            let rest = s@.skip(i as int);
            assert(rest[0] == b);
            assert(rest.drop_first() =~= s@.skip(i + 1));
        }
        cur.push(b);
        if b == 10u8 {
            let ghost before = out@;
            out.push(cur);
            cur = Vec::new();
            proof {
                assert(chunks_view(out@) =~= chunks_view(before).push(out@.last()@));
                assert(cur@ =~= Seq::<u8>::empty());
                assert(chunks_view(out@) + chunks_from(s@.skip(i + 1), cur@) =~= chunks_view(
                    before,
                ) + (seq![out@.last()@] + chunks_from(s@.skip(i + 1), seq![])));
            }
        }
        i = i + 1;
    }
    assert(s@.skip(i as int) =~= Seq::<u8>::empty());
    if cur.len() > 0 {
        let ghost before = out@;
        out.push(cur);
        assert(chunks_view(out@) =~= chunks_view(before).push(out@.last()@));
    } else {
        assert(chunks_view(out@) + chunks_from(s@.skip(i as int), cur@) =~= chunks_view(out@));
    }
    out
}


/// The bytes of the chunks, one after the other.
pub open spec fn concat_all(cs: Seq<Seq<u8>>) -> Seq<u8>
    decreases cs.len(),
{
    if cs.len() == 0 {
        seq![]
    } else {
        concat_all(cs.drop_last()) + cs.last()
    }
}

/// The records whose key is not `key`, in order.
pub open spec fn kept_chunks(cs: Seq<Seq<u8>>, key: Seq<u8>) -> Seq<Seq<u8>>
    decreases cs.len(),
{
    if cs.len() == 0 {
        seq![]
    } else if is_record(cs.last()) && record_key(cs.last()) != key {
        kept_chunks(cs.drop_last(), key).push(cs.last())
    } else {
        kept_chunks(cs.drop_last(), key)
    }
}

/// The file names of the records whose key is `key`, in order.
pub open spec fn matching_files(cs: Seq<Seq<u8>>, key: Seq<u8>) -> Seq<Seq<char>>
    decreases cs.len(),
{
    if cs.len() == 0 {
        seq![]
    } else if is_record(cs.last()) && record_key(cs.last()) == key {
        matching_files(cs.drop_last(), key).push(utf8_lossy_of(record_file(cs.last())))
    } else {
        matching_files(cs.drop_last(), key)
    }
}

/// The status byte of an enabled or a disabled module.
pub open spec fn status_byte(enabled: bool) -> u8 {
    if enabled {
        1u8
    } else {
        0u8
    }
}

/// The records, with the status byte of those whose key is `key` set to `status`.
pub open spec fn toggled(cs: Seq<Seq<u8>>, key: Seq<u8>, status: u8) -> Seq<Seq<u8>>
    decreases cs.len(),
{
    if cs.len() == 0 {
        seq![]
    } else if is_record(cs.last()) {
        let c = cs.last();
        let c2 = if record_key(c) == key {
            c.update(32, status)
        } else {
            c
        };
        toggled(cs.drop_last(), key, status).push(c2)
    } else {
        toggled(cs.drop_last(), key, status)
    }
}

/// The file name of the last record whose key is `key`.
pub open spec fn last_matching_file(cs: Seq<Seq<u8>>, key: Seq<u8>) -> Option<Seq<char>>
    decreases cs.len(),
{
    if cs.len() == 0 {
        None
    } else if is_record(cs.last()) && record_key(cs.last()) == key {
        Some(utf8_lossy_of(record_file(cs.last())))
    } else {
        last_matching_file(cs.drop_last(), key)
    }
}

/// The bytes appended for a newly installed, enabled module.
pub open spec fn new_record(key: Seq<u8>, stage: u8, file: Seq<u8>) -> Seq<u8> {
    seq![newline()] + key + seq![1u8, stage] + file
}

/// The store after removing every record of `name`.
pub open spec fn store_without(s: Seq<u8>, name: Seq<u8>) -> Seq<u8> {
    concat_all(kept_chunks(chunks(s), name_key(name)))
}

/// The store after installing `name` from `file` at `stage`.
pub open spec fn store_with(s: Seq<u8>, name: Seq<u8>, file: Seq<u8>, stage: u8) -> Seq<u8> {
    store_without(s, name) + new_record(name_key(name), stage, file)
}

/// The store after setting the status of every record of `name`.
pub open spec fn store_toggled(s: Seq<u8>, name: Seq<u8>, enabled: bool) -> Seq<u8> {
    concat_all(toggled(chunks(s), name_key(name), status_byte(enabled)))
}

/// A rewritten store, with the backing files it no longer refers to.
pub struct KpmRemoval {
    pub store: Vec<u8>,
    pub removed_files: Vec<String>,
}

/// A rewritten store, with the backing file to load now, if any.
pub struct KpmToggle {
    pub store: Vec<u8>,
    pub load_file: Option<String>,
}

fn append_bytes(out: &mut Vec<u8>, b: &[u8])
    ensures
        final(out)@ == old(out)@ + b@,
{
    let ghost start = out@;
    let mut i: usize = 0;
    while i < b.len()
        invariant
            i <= b@.len(),
            out@ == start + b@.take(i as int),
        decreases b.len() - i,
    {
        out.push(b[i]);
        assert(b@.take(i + 1) =~= b@.take(i as int).push(b@[i as int]));
        i = i + 1;
    }
    assert(b@.take(b@.len() as int) =~= b@);
}

/// The match key of a module name.
pub fn kpm_name_key(name: &[u8]) -> (r: Vec<u8>)
    ensures
        r@ == name_key(name@),
{
    let mut out: Vec<u8> = Vec::new();
    let mut i: usize = 0;
    while i < KPM_NAME_LEN
        invariant
            i <= KPM_NAME_LEN,
            out@.len() == i,
            forall|j: int| 0 <= j < i ==> out@[j] == (if j < name@.len() { name@[j] } else { 0u8 }),
        decreases KPM_NAME_LEN - i,
    {
        if i < name.len() {
            out.push(name[i]);
        } else {
            out.push(0u8);
        }
        i = i + 1;
    }
    assert(out@ =~= name_key(name@));
    out
}

fn key_matches(c: &Vec<u8>, key: &Vec<u8>) -> (r: bool)
    requires
        c@.len() >= KPM_NAME_LEN,
        key@.len() == KPM_NAME_LEN,
    ensures
        r == (record_key(c@) == key@),
{
    let mut i: usize = 0;
    while i < KPM_NAME_LEN
        invariant
            i <= KPM_NAME_LEN,
            c@.len() >= KPM_NAME_LEN,
            key@.len() == KPM_NAME_LEN,
            forall|j: int| 0 <= j < i ==> c@[j] == key@[j],
        decreases KPM_NAME_LEN - i,
    {
        if c[i] != key[i] {
            assert(record_key(c@)[i as int] != key@[i as int]);
            return false;
        }
        i = i + 1;
    }
    assert(record_key(c@) =~= key@);
    true
}

/// `r` is the decoding of `b` whenever `b` is valid UTF-8.
pub open spec fn decodes(b: Seq<u8>, r: Seq<char>) -> bool {
    valid_utf8(b) ==> r == decode_utf8(b)
}

/// The entry's texts are the decodings of the record's fields where these
/// are valid UTF-8.
pub open spec fn entry_decodes(c: Seq<u8>, e: KpmEntryView) -> bool {
    decodes(trim_nul(record_key(c)), e.name) && decodes(record_file(c), e.file_name)
}

fn file_of_record(c: &Vec<u8>) -> (r: String)
    requires
        is_record(c@),
    ensures
        r@ == utf8_lossy_of(record_file(c@)),
        decodes(record_file(c@), r@),
{
    let end: usize = if c[c.len() - 1] == 10u8 {
        c.len() - 1
    } else {
        c.len()
    };
    utf8_lossy(&c.as_slice()[34..end])
}

fn entry_of_record(c: &Vec<u8>) -> (e: KpmEntry)
    requires
        is_record(c@),
    ensures
        e@ == entry_of(c@),
        entry_decodes(c@, e@),
{
    let mut end: usize = KPM_NAME_LEN;
    while end > 0 && c[end - 1] == 0u8
        invariant
            end <= KPM_NAME_LEN,
            c@.len() >= KPM_RECORD_MIN_LEN,
            trim_nul(record_key(c@)) == trim_nul(c@.subrange(0, end as int)),
        decreases end,
    {
        assert(c@.subrange(0, end - 1) =~= c@.subrange(0, end as int).drop_last());
        end = end - 1;
    }
    let name = utf8_lossy(&c.as_slice()[0..end]);
    let status = c[32];
    KpmEntry {
        name,
        enabled: status & 1u8 != 0u8,
        stage: c[33],
        file_name: file_of_record(c),
    }
}

/// The modules registered in the store, in store order; chunks too short to
/// be records are skipped.
pub fn list_kpms(store: &[u8]) -> (r: Vec<KpmEntry>)
    ensures
        entries_view(r@) == store_entries(store@),
        forall|i: int|
            0 <= i < r@.len() ==> entry_decodes(store_records(store@)[i], #[trigger] r@[i]@),
{
    let cs = split_chunks(store);
    let ghost v = chunks_view(cs@);
    let mut out: Vec<KpmEntry> = Vec::new();
    let mut i: usize = 0;
    while i < cs.len()
        invariant
            i <= cs@.len(),
            v == chunks_view(cs@),
            forall|k: int|
                0 <= k < out@.len() ==> entry_decodes(
                    records_of(v.take(i as int))[k],
                    #[trigger] out@[k]@,
                ),
            entries_view(out@) == records_of(v.take(i as int)).map_values(
                |c: Seq<u8>| entry_of(c),
            ),
        decreases cs.len() - i,
    {
        proof {
            assert(v.take(i + 1).drop_last() =~= v.take(i as int));
            assert(v[i as int] == cs@[i as int]@);
        }
        if cs[i].len() >= KPM_RECORD_MIN_LEN {
            let e = entry_of_record(&cs[i]);
            let ghost before = out@;
            out.push(e);
            proof {
                let r0 = records_of(v.take(i as int));
                assert(records_of(v.take(i + 1)) == r0.push(v[i as int]));
                assert forall|k: int| 0 <= k < out@.len() implies entry_decodes(
                    records_of(v.take(i + 1))[k],
                    #[trigger] out@[k]@,
                ) by {
                    assert(entries_view(before).len() == before.len());
                    assert(r0.map_values(|c: Seq<u8>| entry_of(c)).len() == r0.len());
                    if k < before.len() {
                        assert(out@[k] == before[k]);
                        assert(records_of(v.take(i + 1))[k] == r0[k]);
                    } else {
                        assert(out@[k] == e);
                        assert(records_of(v.take(i + 1))[k] == v[i as int]);
                    }
                }
            }
            assert(entries_view(out@) =~= entries_view(before).push(e@));
            assert(records_of(v.take(i + 1)).map_values(|c: Seq<u8>| entry_of(c)) =~= records_of(
                v.take(i as int),
            ).map_values(|c: Seq<u8>| entry_of(c)).push(entry_of(v[i as int])));
        }
        i = i + 1;
    }
    assert(v.take(cs@.len() as int) =~= v);
    out
}


/// Removes every record of `name` from the store, keeping all other records
/// verbatim and in order, and names the backing files of the removed ones.
pub fn uninstall_kpm(store: &[u8], name: &[u8]) -> (r: KpmRemoval)
    ensures
        r.store@ == store_without(store@, name@),
        r.removed_files.deep_view() == matching_files(chunks(store@), name_key(name@)),
{
    let key = kpm_name_key(name);
    let cs = split_chunks(store);
    let ghost v = chunks_view(cs@);
    let mut out: Vec<u8> = Vec::new();
    let mut removed: Vec<String> = Vec::new();
    let mut i: usize = 0;
    while i < cs.len()
        invariant
            i <= cs@.len(),
            v == chunks_view(cs@),
            key@ == name_key(name@),
            out@ == concat_all(kept_chunks(v.take(i as int), key@)),
            removed.deep_view() == matching_files(v.take(i as int), key@),
        decreases cs.len() - i,
    {
        proof {
            assert(v.take(i + 1).drop_last() =~= v.take(i as int));
            assert(v[i as int] == cs@[i as int]@);
            assert(v.take(i + 1).last() == v[i as int]);
        }
        let c = &cs[i];
        if c.len() >= KPM_RECORD_MIN_LEN {
            if key_matches(c, &key) {
                let f = file_of_record(c);
                let ghost before = removed.deep_view();
                removed.push(f);
                assert(removed.deep_view() =~= before.push(f@));
            } else {
                append_bytes(&mut out, c.as_slice());
                assert(kept_chunks(v.take(i + 1), key@) == kept_chunks(v.take(i as int), key@).push(
                    v[i as int],
                ));
                assert(kept_chunks(v.take(i + 1), key@).drop_last() =~= kept_chunks(
                    v.take(i as int),
                    key@,
                ));
            }
        }
        i = i + 1;
    }
    assert(v.take(cs@.len() as int) =~= v);
    KpmRemoval { store: out, removed_files: removed }
}

/// Sets the status byte of every record of `name`, leaving every other byte
/// of every record as it was. Enabling also names the backing file of the
/// last such record, to be loaded now; disabling loads and unloads nothing,
/// and takes effect at the next boot.
pub fn set_kpm_enabled(store: &[u8], name: &[u8], enabled: bool) -> (r: KpmToggle)
    ensures
        r.store@ == store_toggled(store@, name@, enabled),
        r.load_file.deep_view() == if enabled {
            last_matching_file(chunks(store@), name_key(name@))
        } else {
            None
        },
{
    let key = kpm_name_key(name);
    let status: u8 = if enabled {
        1u8
    } else {
        0u8
    };
    let cs = split_chunks(store);
    let ghost v = chunks_view(cs@);
    let mut out: Vec<u8> = Vec::new();
    let mut file: Option<String> = None;
    let mut i: usize = 0;
    while i < cs.len()
        invariant
            i <= cs@.len(),
            v == chunks_view(cs@),
            key@ == name_key(name@),
            status == status_byte(enabled),
            out@ == concat_all(toggled(v.take(i as int), key@, status)),
            file.deep_view() == last_matching_file(v.take(i as int), key@),
        decreases cs.len() - i,
    {
        proof {
            assert(v.take(i + 1).drop_last() =~= v.take(i as int));
            assert(v[i as int] == cs@[i as int]@);
            assert(v.take(i + 1).last() == v[i as int]);
        }
        let c = &cs[i];
        if c.len() >= KPM_RECORD_MIN_LEN {
            let ghost t0 = toggled(v.take(i as int), key@, status);
            if key_matches(c, &key) {
                let mut c2 = c.clone();
                c2[32] = status;
                append_bytes(&mut out, c2.as_slice());
                let f = file_of_record(c);
                file = Some(f);
                assert(c2@ =~= c@.update(32, status));
                assert(toggled(v.take(i + 1), key@, status) =~= t0.push(c2@));
            } else {
                append_bytes(&mut out, c.as_slice());
                assert(toggled(v.take(i + 1), key@, status) =~= t0.push(c@));
            }
            assert(toggled(v.take(i + 1), key@, status).drop_last() =~= t0);
        }
        i = i + 1;
    }
    assert(v.take(cs@.len() as int) =~= v);
    let load_file = if enabled {
        file
    } else {
        None
    };
    KpmToggle { store: out, load_file }
}

/// Installs `name`, backed by `file_name`, at `stage`: every earlier record of
/// the same name is removed first and its backing file reported, then an
/// enabled record is appended.
pub fn install_kpm(store: &[u8], name: &[u8], file_name: &[u8], stage: u8) -> (r: KpmRemoval)
    ensures
        r.store@ == store_with(store@, name@, file_name@, stage),
        r.removed_files.deep_view() == matching_files(chunks(store@), name_key(name@)),
{
    let mut rm = uninstall_kpm(store, name);
    let key = kpm_name_key(name);
    let mut rec: Vec<u8> = Vec::new();
    rec.push(10u8);
    append_bytes(&mut rec, key.as_slice());
    rec.push(1u8);
    rec.push(stage);
    append_bytes(&mut rec, file_name);
    assert(rec@ =~= new_record(name_key(name@), stage, file_name@));
    append_bytes(&mut rm.store, rec.as_slice());
    rm
}


/// The stage code of a stage name.
pub open spec fn stage_code(stage: Seq<char>) -> u8 {
    if stage == "boot-completed"@ {
        KPM_STAGE_BOOT_COMPLETED
    } else if stage == "service"@ {
        KPM_STAGE_SERVICE
    } else if stage == "post-fs-data"@ {
        KPM_STAGE_POSTFS_DATA
    } else if stage == "post-mount"@ {
        KPM_STAGE_POSTMOUNT
    } else {
        KPM_STAGE_UNKNOWN
    }
}

fn same_text(a: &str, b: &str) -> (r: bool)
    ensures
        r == (a@ == b@),
{
    let x = a.as_bytes();
    let y = b.as_bytes();
    proof {
        vstd::utf8::encode_utf8_decode_utf8(a@);
        vstd::utf8::encode_utf8_decode_utf8(b@);
    }
    assert(a@ == b@ ==> x@ == y@);
    if x.len() != y.len() {
        return false;
    }
    let mut i: usize = 0;
    while i < x.len()
        invariant
            i <= x@.len(),
            x@.len() == y@.len(),
            a@ == b@ ==> x@ == y@,
            forall|j: int| 0 <= j < i ==> x@[j] == y@[j],
        decreases x.len() - i,
    {
        if x[i] != y[i] {
            assert(x@[i as int] != y@[i as int]);
            return false;
        }
        i = i + 1;
    }
    assert(x@ =~= y@);
    true
}

/// The stage code of a stage name; `KPM_STAGE_UNKNOWN` for any other text.
pub fn stage_map(stage: &str) -> (r: u8)
    ensures
        r == stage_code(stage@),
{
    if same_text(stage, "boot-completed") {
        KPM_STAGE_BOOT_COMPLETED
    } else if same_text(stage, "service") {
        KPM_STAGE_SERVICE
    } else if same_text(stage, "post-fs-data") {
        KPM_STAGE_POSTFS_DATA
    } else if same_text(stage, "post-mount") {
        KPM_STAGE_POSTMOUNT
    } else {
        KPM_STAGE_UNKNOWN
    }
}

/// The backing files of the enabled records of `stage`, in order.
pub open spec fn files_at_stage(rs: Seq<Seq<u8>>, stage: u8) -> Seq<Seq<char>>
    decreases rs.len(),
{
    if rs.len() == 0 {
        seq![]
    } else {
        let c = rs.last();
        let e = files_at_stage(rs.drop_last(), stage);
        if c[32] & 1u8 != 0u8 && c[33] == stage {
            e.push(utf8_lossy_of(record_file(c)))
        } else {
            e
        }
    }
}

/// What to load when the boot reaches a stage.
pub enum KpmLoadPlan {
    /// The stage name is no known stage: nothing is to be done.
    NotAStage,
    /// No enabled module is registered for the stage.
    NothingToLoad,
    /// The backing files to load, in store order.
    Load(Vec<String>),
}

/// Decides which registered modules to load at the stage named `stage`;
/// `store` is `None` when the registry could not be read.
pub fn kpm_load_plan(store: &Option<Vec<u8>>, stage: &str) -> (r: KpmLoadPlan)
    ensures
        stage_code(stage@) == KPM_STAGE_UNKNOWN <==> r is NotAStage,
        stage_code(stage@) != KPM_STAGE_UNKNOWN ==> match store {
            None => r is NothingToLoad,
            Some(s) => {
                let files = files_at_stage(store_records(s@), stage_code(stage@));
                &&& files.len() == 0 <==> r is NothingToLoad
                &&& r matches KpmLoadPlan::Load(v) ==> v.deep_view() == files
            },
        },
{
    let code = stage_map(stage);
    if code == KPM_STAGE_UNKNOWN {
        return KpmLoadPlan::NotAStage;
    }
    match store {
        None => KpmLoadPlan::NothingToLoad,
        Some(s) => {
            let cs = split_chunks(s.as_slice());
            let ghost v = chunks_view(cs@);
            let mut files: Vec<String> = Vec::new();
            let mut i: usize = 0;
            while i < cs.len()
                invariant
                    i <= cs@.len(),
                    v == chunks_view(cs@),
                    v == chunks(s@),
                    files.deep_view() == files_at_stage(records_of(v.take(i as int)), code),
                decreases cs.len() - i,
            {
                proof {
                    assert(v.take(i + 1).drop_last() =~= v.take(i as int));
                    assert(v[i as int] == cs@[i as int]@);
                    assert(v.take(i + 1).last() == v[i as int]);
                }
                let c = &cs[i];
                proof {
                    let r0 = records_of(v.take(i as int));
                    if is_record(v[i as int]) {
                        assert(records_of(v.take(i + 1)) == r0.push(v[i as int]));
                        assert(r0.push(v[i as int]).drop_last() =~= r0);
                    }
                }
                if c.len() >= KPM_RECORD_MIN_LEN && c[32] & 1u8 != 0u8 && c[33] == code {
                    let f = file_of_record(c);
                    let ghost before = files.deep_view();
                    files.push(f);
                    assert(files.deep_view() =~= before.push(f@));
                }
                i = i + 1;
            }
            assert(v.take(cs@.len() as int) =~= v);
            if files.len() == 0 {
                KpmLoadPlan::NothingToLoad
            } else {
                KpmLoadPlan::Load(files)
            }
        },
    }
}

/// `p` occurs in `s` at `i`.
pub open spec fn occurs_at(s: Seq<u8>, p: Seq<u8>, i: int) -> bool {
    0 <= i && i + p.len() <= s.len() && s.subrange(i, i + p.len()) == p
}

pub open spec fn ends_field(b: u8) -> bool {
    b == 0u8 || b == newline()
}

fn occurs(s: &[u8], p: &[u8], i: usize) -> (r: bool)
    requires
        i <= s@.len(),
    ensures
        r == occurs_at(s@, p@, i as int),
{
    if p.len() > s.len() - i {
        return false;
    }
    let end = i + p.len();
    let mut k: usize = i;
    while k < end
        invariant
            i <= k <= end,
            end == i + p@.len(),
            end <= s@.len(),
            forall|m: int| i <= m < k ==> s@[m] == p@[m - i],
        decreases end - k,
    {
        if s[k] != p[k - i] {
            assert(s@.subrange(i as int, end as int)[k - i] != p@[k - i]);
            return false;
        }
        k = k + 1;
    }
    assert(s@.subrange(i as int, end as int) =~= p@);
    true
}

/// `v` is the field that `prefix` introduces at `i` and that ends at `e`,
/// `i` being the first occurrence.
pub open spec fn field_at(s: Seq<u8>, prefix: Seq<u8>, i: int, e: int, v: Seq<char>) -> bool {
    &&& occurs_at(s, prefix, i)
    &&& forall|j: int| 0 <= j < i ==> !occurs_at(s, prefix, j)
    &&& i + prefix.len() <= e <= s.len()
    &&& forall|k: int| i + prefix.len() <= k < e ==> !ends_field(#[trigger] s[k])
    &&& (e == s.len() || ends_field(s[e]))
    &&& v == utf8_lossy_of(s.subrange(i + prefix.len(), e))
}

/// The value that follows the first occurrence of `prefix` in `content`, up
/// to the next NUL or newline or the end, decoded as UTF-8; `None` when
/// `prefix` does not occur.
pub fn _find_kpm_field(content: &[u8], prefix: &[u8]) -> (r: Option<String>)
    ensures
        r is None <==> !exists|i: int| occurs_at(content@, prefix@, i),
        r is Some ==> exists|i: int, e: int| field_at(content@, prefix@, i, e, r->0@),
{
    let mut i: usize = 0;
    while prefix.len() <= content.len() - i
        invariant
            i <= content@.len(),
            forall|j: int| 0 <= j < i ==> !occurs_at(content@, prefix@, j),
        decreases content.len() - i,
    {
        if occurs(content, prefix, i) {
            let start = i + prefix.len();
            let mut e: usize = start;
            while e < content.len() && content[e] != 0u8 && content[e] != 10u8
                invariant
                    start <= e <= content@.len(),
                    forall|k: int| start <= k < e ==> !ends_field(#[trigger] content@[k]),
                decreases content.len() - e,
            {
                e = e + 1;
            }
            let v = utf8_lossy(&content[start..e]);
            let r = Some(v);
            assert(field_at(content@, prefix@, i as int, e as int, r->0@));
            return r;
        }
        if prefix.len() == 0 {
            assert(content@.subrange(i as int, i as int) =~= prefix@);
        }
        i = i + 1;
    }
    None
}

} // verus!
