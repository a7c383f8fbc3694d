//! Properties of the module registry, proved over its specification: a
//! rewritten store reads back as the records it was written from.

use vstd::prelude::*;
use crate::kpm::{
    chunks, chunks_from, concat_all, entry_of, is_record, kept_chunks, matching_files, name_key,
    newline, record_file, record_key, records_of, status_byte, store_entries, store_records,
    store_toggled, store_with, store_without, toggled, new_record, KpmEntryView,
};
use crate::text::utf8_lossy_of;

verus! {

/// A chunk as a line reader delivers it: not empty, with a newline at most
/// as its last byte.
pub open spec fn line_chunk(c: Seq<u8>) -> bool {
    c.len() > 0 && forall|i: int| 0 <= i < c.len() - 1 ==> c[i] != newline()
}

pub open spec fn ends_nl(c: Seq<u8>) -> bool {
    c.len() > 0 && c.last() == newline()
}

pub open spec fn no_newline(c: Seq<u8>) -> bool {
    forall|i: int| 0 <= i < c.len() ==> c[i] != newline()
}

/// Chunks that a line reader would deliver again from their concatenation.
pub open spec fn wf_chunks(cs: Seq<Seq<u8>>) -> bool {
    forall|i: int|
        0 <= i < cs.len() ==> line_chunk(#[trigger] cs[i]) && (i < cs.len() - 1 ==> ends_nl(cs[i]))
}

proof fn lemma_chunks_line(c: Seq<u8>, rest: Seq<u8>, cur: Seq<u8>)
    requires
        line_chunk(c),
        ends_nl(c),
    ensures
        chunks_from(c + rest, cur) == seq![cur + c] + chunks_from(rest, seq![]),
    decreases c.len(),
{
    let s = c + rest;
    if c.len() == 1 {
        assert(s[0] == newline());
        assert(s.drop_first() =~= rest);
        assert(cur.push(newline()) =~= cur + c);
    } else {
        assert(s[0] == c[0]);
        assert(c[0] != newline());
        let c1 = c.drop_first();
        assert(s.drop_first() =~= c1 + rest);
        assert(line_chunk(c1)) by {
            assert forall|i: int| 0 <= i < c1.len() - 1 implies c1[i] != newline() by {
                assert(c1[i] == c[i + 1]);
            }
        }
        assert(c1.last() == c.last());
        lemma_chunks_line(c1, rest, cur.push(c[0]));
        assert(cur.push(c[0]) + c1 =~= cur + c);
    }
}

proof fn lemma_chunks_tail(c: Seq<u8>, cur: Seq<u8>)
    requires
        no_newline(c),
    ensures
        chunks_from(c, cur) == if cur.len() + c.len() == 0 {
            seq![]
        } else {
            seq![cur + c]
        },
    decreases c.len(),
{
    if c.len() == 0 {
        assert(cur + c =~= cur);
    } else {
        assert(c[0] != newline());
        let c1 = c.drop_first();
        assert(no_newline(c1)) by {
            assert forall|i: int| 0 <= i < c1.len() implies c1[i] != newline() by {
                assert(c1[i] == c[i + 1]);
            }
        }
        lemma_chunks_tail(c1, cur.push(c[0]));
        assert(cur.push(c[0]) + c1 =~= cur + c);
    }
}

proof fn lemma_concat_first(cs: Seq<Seq<u8>>)
    requires
        cs.len() > 0,
    ensures
        concat_all(cs) == cs[0] + concat_all(cs.drop_first()),
    decreases cs.len(),
{
    if cs.len() == 1 {
        assert(cs.drop_last() =~= Seq::<Seq<u8>>::empty());
        assert(cs.drop_first() =~= Seq::<Seq<u8>>::empty());
        assert(concat_all(cs.drop_last()) =~= Seq::<u8>::empty());
        assert(cs.last() == cs[0]);
        assert(concat_all(cs) =~= cs[0]);
        assert(cs[0] + concat_all(cs.drop_first()) =~= cs[0]);
    } else {
        let d = cs.drop_last();
        lemma_concat_first(d);
        assert(d[0] == cs[0]);
        assert(cs.drop_first().drop_last() =~= d.drop_first());
        assert(cs.drop_first().last() == cs.last());
        assert(concat_all(cs) =~= cs[0] + concat_all(cs.drop_first()));
    }
}

proof fn lemma_concat_push(cs: Seq<Seq<u8>>, c: Seq<u8>)
    ensures
        concat_all(cs.push(c)) == concat_all(cs) + c,
{
    assert(cs.push(c).drop_last() =~= cs);
}

/// Chunks that a line reader delivered are delivered again from their bytes.
proof fn lemma_rechunk(cs: Seq<Seq<u8>>)
    requires
        wf_chunks(cs),
    ensures
        chunks(concat_all(cs)) == cs,
    decreases cs.len(),
{
    if cs.len() == 0 {
        assert(concat_all(cs) =~= Seq::<u8>::empty());
    } else {
        let c = cs[0];
        let rest = cs.drop_first();
        lemma_concat_first(cs);
        assert(wf_chunks(rest)) by {
            assert forall|i: int| 0 <= i < rest.len() implies line_chunk(#[trigger] rest[i]) && (i
                < rest.len() - 1 ==> ends_nl(rest[i])) by {
                assert(rest[i] == cs[i + 1]);
            }
        }
        lemma_rechunk(rest);
        if ends_nl(c) {
            lemma_chunks_line(c, concat_all(rest), seq![]);
            assert(seq![] + c =~= c);
            assert(cs =~= seq![c] + rest);
        } else {
            assert(cs.len() == 1);
            assert(rest.len() == 0);
            assert(concat_all(rest) =~= Seq::<u8>::empty());
            assert(c + concat_all(rest) =~= c);
            assert(no_newline(c)) by {
                assert forall|i: int| 0 <= i < c.len() implies c[i] != newline() by {
                    if i == c.len() - 1 {
                        assert(c[i] == c.last());
                    }
                }
            }
            lemma_chunks_tail(c, seq![]);
            assert(seq![] + c =~= c);
            assert(cs =~= seq![c]);
        }
    }
}

/// What a line reader delivers is well formed.
proof fn lemma_chunks_wf(s: Seq<u8>, cur: Seq<u8>)
    requires
        no_newline(cur),
    ensures
        wf_chunks(chunks_from(s, cur)),
    decreases s.len(),
{
    if s.len() == 0 {
        if cur.len() > 0 {
            let r = chunks_from(s, cur);
            assert(r =~= seq![cur]);
            assert(line_chunk(cur));
        }
    } else if s[0] == newline() {
        let x = cur.push(newline());
        lemma_chunks_wf(s.drop_first(), seq![]);
        let rest = chunks_from(s.drop_first(), seq![]);
        let r = seq![x] + rest;
        assert(line_chunk(x)) by {
            assert forall|i: int| 0 <= i < x.len() - 1 implies x[i] != newline() by {
                assert(x[i] == cur[i]);
            }
        }
        assert forall|i: int| 0 <= i < r.len() implies line_chunk(#[trigger] r[i]) && (i < r.len()
            - 1 ==> ends_nl(r[i])) by {
            if i > 0 {
                assert(r[i] == rest[i - 1]);
            }
        }
    } else {
        let c2 = cur.push(s[0]);
        assert(no_newline(c2)) by {
            assert forall|i: int| 0 <= i < c2.len() implies c2[i] != newline() by {
                if i < cur.len() {
                    assert(c2[i] == cur[i]);
                }
            }
        }
        lemma_chunks_wf(s.drop_first(), c2);
    }
}

proof fn lemma_store_chunks_wf(s: Seq<u8>)
    ensures
        wf_chunks(chunks(s)),
{
    lemma_chunks_wf(s, seq![]);
}

/// Every chunk is long enough to be a record.
pub open spec fn all_records(cs: Seq<Seq<u8>>) -> bool {
    forall|i: int| 0 <= i < cs.len() ==> is_record(#[trigger] cs[i])
}

proof fn lemma_records_of_all(cs: Seq<Seq<u8>>)
    requires
        all_records(cs),
    ensures
        records_of(cs) == cs,
    decreases cs.len(),
{
    if cs.len() > 0 {
        let d = cs.drop_last();
        assert(all_records(d)) by {
            assert forall|i: int| 0 <= i < d.len() implies is_record(#[trigger] d[i]) by {
                assert(d[i] == cs[i]);
            }
        }
        lemma_records_of_all(d);
        assert(is_record(cs[cs.len() - 1]));
        assert(cs =~= d.push(cs.last()));
    }
}

proof fn lemma_wf_drop_last(cs: Seq<Seq<u8>>)
    requires
        wf_chunks(cs),
        cs.len() > 0,
    ensures
        wf_chunks(cs.drop_last()),
        forall|i: int| 0 <= i < cs.len() - 1 ==> ends_nl(#[trigger] cs.drop_last()[i]),
        line_chunk(cs.last()),
{
    let d = cs.drop_last();
    assert forall|i: int| 0 <= i < d.len() implies line_chunk(#[trigger] d[i]) && ends_nl(d[i]) by {
        assert(d[i] == cs[i]);
    }
    assert(line_chunk(cs[cs.len() - 1]));
}

proof fn lemma_wf_push(cs: Seq<Seq<u8>>, c: Seq<u8>)
    requires
        wf_chunks(cs),
        forall|i: int| 0 <= i < cs.len() ==> ends_nl(#[trigger] cs[i]),
        line_chunk(c),
    ensures
        wf_chunks(cs.push(c)),
{
    let r = cs.push(c);
    assert forall|i: int| 0 <= i < r.len() implies line_chunk(#[trigger] r[i]) && (i < r.len() - 1
        ==> ends_nl(r[i])) by {
        if i < cs.len() {
            assert(r[i] == cs[i]);
        }
    }
}

proof fn lemma_kept_wf(cs: Seq<Seq<u8>>, key: Seq<u8>)
    requires
        wf_chunks(cs),
    ensures
        wf_chunks(kept_chunks(cs, key)),
        all_records(kept_chunks(cs, key)),
        forall|i: int|
            0 <= i < kept_chunks(cs, key).len() ==> record_key(#[trigger] kept_chunks(cs, key)[i])
                != key,
        (forall|i: int| 0 <= i < cs.len() ==> ends_nl(#[trigger] cs[i])) ==> (forall|i: int|
            0 <= i < kept_chunks(cs, key).len() ==> ends_nl(#[trigger] kept_chunks(cs, key)[i])),
    decreases cs.len(),
{
    if cs.len() > 0 {
        let d = cs.drop_last();
        lemma_wf_drop_last(cs);
        lemma_kept_wf(d, key);
        let k = kept_chunks(d, key);
        if is_record(cs.last()) && record_key(cs.last()) != key {
            lemma_wf_push(k, cs.last());
            let r = k.push(cs.last());
            assert forall|i: int| 0 <= i < r.len() implies is_record(#[trigger] r[i]) && record_key(
                r[i],
            ) != key by {
                if i < k.len() {
                    assert(r[i] == k[i]);
                }
            }
            if forall|i: int| 0 <= i < cs.len() ==> ends_nl(#[trigger] cs[i]) {
                assert(ends_nl(cs[cs.len() - 1]));
                assert forall|i: int| 0 <= i < r.len() implies ends_nl(#[trigger] r[i]) by {
                    if i < k.len() {
                        assert(r[i] == k[i]);
                    }
                }
            }
        }
    }
}

/// A record with its status byte set when its key is `key`.
pub open spec fn toggle_one(c: Seq<u8>, key: Seq<u8>, status: u8) -> Seq<u8> {
    if record_key(c) == key {
        c.update(32, status)
    } else {
        c
    }
}

proof fn lemma_toggled_shape(cs: Seq<Seq<u8>>, key: Seq<u8>, status: u8)
    requires
        wf_chunks(cs),
        status != newline(),
    ensures
        wf_chunks(toggled(cs, key, status)),
        all_records(toggled(cs, key, status)),
        toggled(cs, key, status) == records_of(cs).map_values(
            |c: Seq<u8>| toggle_one(c, key, status),
        ),
    decreases cs.len(),
{
    if cs.len() > 0 {
        let d = cs.drop_last();
        lemma_wf_drop_last(cs);
        lemma_toggled_shape(d, key, status);
        let t = toggled(d, key, status);
        let c = cs.last();
        if is_record(c) {
            let c2 = toggle_one(c, key, status);
            assert(line_chunk(c2)) by {
                assert forall|i: int| 0 <= i < c2.len() - 1 implies c2[i] != newline() by {
                    if i != 32 {
                        assert(c2[i] == c[i]);
                    }
                }
            }
            assert forall|i: int| 0 <= i < t.len() implies ends_nl(#[trigger] t[i]) by {
                let m = records_of(d);
                lemma_records_sub(d);
                assert(t[i] == toggle_one(m[i], key, status));
                let j = choose|j: int| 0 <= j < d.len() && #[trigger] d[j] == m[i];
                assert(ends_nl(d[j]));
                assert(m[i].len() >= 35);
            }
            lemma_wf_push(t, c2);
            let r = t.push(c2);
            assert forall|i: int| 0 <= i < r.len() implies is_record(#[trigger] r[i]) by {
                if i < t.len() {
                    assert(r[i] == t[i]);
                }
            }
            assert(r =~= records_of(cs).map_values(|c: Seq<u8>| toggle_one(c, key, status)));
        } else {
            assert(toggled(cs, key, status) =~= records_of(cs).map_values(
                |c: Seq<u8>| toggle_one(c, key, status),
            ));
        }
    }
}

proof fn lemma_records_sub(cs: Seq<Seq<u8>>)
    ensures
        forall|i: int|
            0 <= i < records_of(cs).len() ==> exists|j: int|
                0 <= j < cs.len() && #[trigger] cs[j] == #[trigger] records_of(cs)[i],
        forall|i: int| 0 <= i < records_of(cs).len() ==> is_record(#[trigger] records_of(cs)[i]),
    decreases cs.len(),
{
    if cs.len() > 0 {
        let d = cs.drop_last();
        lemma_records_sub(d);
        let m = records_of(d);
        let r = records_of(cs);
        assert forall|i: int| 0 <= i < r.len() implies exists|j: int|
            0 <= j < cs.len() && #[trigger] cs[j] == #[trigger] r[i] by {
            if i < m.len() {
                assert(r[i] == m[i]);
                let j = choose|j: int| 0 <= j < d.len() && #[trigger] d[j] == m[i];
                assert(cs[j] == d[j]);
            } else {
                assert(cs[cs.len() - 1] == r[i]);
            }
        }
        assert forall|i: int| 0 <= i < r.len() implies is_record(#[trigger] r[i]) by {
            if i < m.len() {
                assert(r[i] == m[i]);
            }
        }
    }
}

/// Toggling a module rewrites only status bytes: the store reads back as the
/// same records in the same order, each byte for byte as before except the
/// status byte of the records of `name`, which is the new status.
pub proof fn lemma_toggle_only_status(s: Seq<u8>, name: Seq<u8>, enabled: bool)
    ensures
        ({
            let before = store_records(s);
            let after = store_records(store_toggled(s, name, enabled));
            &&& after.len() == before.len()
            &&& forall|i: int|
                0 <= i < before.len() ==> #[trigger] after[i] == if record_key(before[i])
                    == name_key(name) {
                    before[i].update(32, status_byte(enabled))
                } else {
                    before[i]
                }
        }),
{
    let cs = chunks(s);
    let key = name_key(name);
    let st = status_byte(enabled);
    lemma_store_chunks_wf(s);
    lemma_toggled_shape(cs, key, st);
    let t = toggled(cs, key, st);
    lemma_rechunk(t);
    lemma_records_of_all(t);
}


/// The kept records with a newline put back at the end of the last one,
/// as appending a record does.
pub open spec fn close_last(k: Seq<Seq<u8>>) -> Seq<Seq<u8>> {
    if k.len() > 0 && !ends_nl(k.last()) {
        k.drop_last().push(k.last().push(newline()))
    } else {
        k
    }
}

/// The record that installing `name` from `file` at `stage` appends.
pub open spec fn installed_record(name: Seq<u8>, file: Seq<u8>, stage: u8) -> Seq<u8> {
    name_key(name) + seq![1u8, stage] + file
}

/// The entry that installing `name` from `file` at `stage` lists.
pub open spec fn installed_entry(name: Seq<u8>, file: Seq<u8>, stage: u8) -> KpmEntryView {
    entry_of(installed_record(name, file, stage))
}

/// What an install can write as one record: a name and a file name without
/// newlines, a non-empty file name, and a stage byte that is no newline.
pub open spec fn installable(name: Seq<u8>, file: Seq<u8>, stage: u8) -> bool {
    &&& no_newline(name_key(name))
    &&& no_newline(file)
    &&& file.len() > 0
    &&& stage != newline()
}

proof fn lemma_entry_closed(c: Seq<u8>)
    requires
        is_record(c),
        !ends_nl(c),
    ensures
        entry_of(c.push(newline())) == entry_of(c),
{
    let c2 = c.push(newline());
    assert(record_key(c2) =~= record_key(c));
    assert(record_file(c2) =~= record_file(c));
}

proof fn lemma_install_chunks(s: Seq<u8>, name: Seq<u8>, file: Seq<u8>, stage: u8)
    requires
        installable(name, file, stage),
    ensures
        ({
            let k = kept_chunks(chunks(s), name_key(name));
            let body = installed_record(name, file, stage);
            &&& store_records(store_with(s, name, file, stage)) == close_last(k).push(body)
            &&& kept_chunks(chunks(store_with(s, name, file, stage)), name_key(name)) == close_last(
                k,
            )
            &&& matching_files(chunks(store_with(s, name, file, stage)), name_key(name)) == seq![
                utf8_lossy_of(file),
            ]
            &&& wf_chunks(k)
            &&& all_records(k)
            &&& forall|i: int| 0 <= i < k.len() ==> record_key(#[trigger] k[i]) != name_key(name)
        }),
{
    let nk = name_key(name);
    let cs = chunks(s);
    lemma_store_chunks_wf(s);
    lemma_kept_wf(cs, nk);
    let k = kept_chunks(cs, nk);
    let body = installed_record(name, file, stage);
    let nl: Seq<u8> = seq![newline()];
    let out = store_with(s, name, file, stage);
    assert(new_record(nk, stage, file) =~= nl + body);
    assert(body.len() == 34 + file.len());
    assert(no_newline(body)) by {
        assert forall|i: int| 0 <= i < body.len() implies body[i] != newline() by {
            if i < 32 {
                assert(body[i] == nk[i]);
            } else if i >= 34 {
                assert(body[i] == file[i - 34]);
            }
        }
    }
    assert(line_chunk(body));
    assert(line_chunk(nl) && ends_nl(nl));
    assert(body.last() == file.last());
    assert(record_key(body) =~= nk);
    assert(record_file(body) =~= file);
    let ck = close_last(k);
    // every element of `close_last(k)` ends with a newline and is a record
    // with another key
    assert(forall|i: int| 0 <= i < ck.len() ==> ends_nl(#[trigger] ck[i]) && is_record(ck[i])
        && record_key(ck[i]) != nk) by {
        if k.len() > 0 && !ends_nl(k.last()) {
            let l = k.last();
            assert(no_newline(l)) by {
                assert forall|i: int| 0 <= i < l.len() implies l[i] != newline() by {
                    assert(line_chunk(k[k.len() - 1]));
                    if i == l.len() - 1 {
                        assert(l[i] == l.last());
                    }
                }
            }
            assert forall|i: int| 0 <= i < ck.len() implies ends_nl(#[trigger] ck[i]) && is_record(
                ck[i],
            ) && record_key(ck[i]) != nk by {
                if i < k.len() - 1 {
                    assert(ck[i] == k[i]);
                } else {
                    assert(ck[i] == l.push(newline()));
                    assert(record_key(l.push(newline())) =~= record_key(l));
                    assert(is_record(k[k.len() - 1]));
                }
            }
        } else {
            assert forall|i: int| 0 <= i < ck.len() implies ends_nl(#[trigger] ck[i]) && is_record(
                ck[i],
            ) && record_key(ck[i]) != nk by {
                if i < k.len() - 1 {
                } else {
                    assert(ck[i] == k.last());
                }
            }
        }
    }
    assert(wf_chunks(ck)) by {
        assert forall|i: int| 0 <= i < ck.len() implies line_chunk(#[trigger] ck[i]) && (i < ck.len()
            - 1 ==> ends_nl(ck[i])) by {
            if k.len() > 0 && !ends_nl(k.last()) && i == ck.len() - 1 {
                let l = k.last();
                assert(line_chunk(k[k.len() - 1]));
                assert(ck[i] == l.push(newline()));
                assert forall|j: int| 0 <= j < ck[i].len() - 1 implies ck[i][j] != newline() by {
                    assert(ck[i][j] == l[j]);
                    if j == l.len() - 1 {
                        assert(l[j] == l.last());
                    }
                }
            } else if i < k.len() {
                assert(ck[i] == k[i]);
            }
        }
    }
    let lst = if k.len() > 0 && !ends_nl(k.last()) {
        ck.push(body)
    } else {
        ck.push(nl).push(body)
    };
    // the bytes written are those of `lst`
    if k.len() > 0 && !ends_nl(k.last()) {
        let d = k.drop_last();
        lemma_concat_push(d, k.last());
        assert(k.drop_last().push(k.last()) =~= k);
        lemma_concat_push(d, k.last().push(newline()));
        lemma_concat_push(ck, body);
        assert(concat_all(lst) =~= out);
    } else {
        lemma_concat_push(ck, nl);
        lemma_concat_push(ck.push(nl), body);
        assert(concat_all(lst) =~= out);
    }
    lemma_wf_push(ck, nl);
    if k.len() > 0 && !ends_nl(k.last()) {
        lemma_wf_push(ck, body);
    } else {
        assert forall|i: int| 0 <= i < ck.push(nl).len() implies ends_nl(#[trigger] ck.push(nl)[i]) by {
            if i < ck.len() {
                assert(ck.push(nl)[i] == ck[i]);
            }
        }
        lemma_wf_push(ck.push(nl), body);
    }
    lemma_rechunk(lst);
    assert(chunks(out) == lst);
    lemma_records_of_all(ck);
    assert(ck.push(nl).drop_last() =~= ck);
    assert(ck.push(nl).push(body).drop_last() =~= ck.push(nl));
    assert(ck.push(body).drop_last() =~= ck);
    lemma_kept_all(ck, nk);
    lemma_no_matching(ck, nk);
    assert(!is_record(nl));
    assert(is_record(body));
    assert(seq![utf8_lossy_of(file)] =~= Seq::<Seq<char>>::empty().push(utf8_lossy_of(file)));
    if k.len() > 0 && !ends_nl(k.last()) {
        assert(records_of(lst) == records_of(ck).push(body));
        assert(kept_chunks(lst, nk) == kept_chunks(ck, nk));
        assert(matching_files(lst, nk) == matching_files(ck, nk).push(utf8_lossy_of(file)));
    } else {
        assert(records_of(ck.push(nl)) == records_of(ck));
        assert(records_of(lst) == records_of(ck.push(nl)).push(body));
        assert(kept_chunks(ck.push(nl), nk) == kept_chunks(ck, nk));
        assert(kept_chunks(lst, nk) == kept_chunks(ck.push(nl), nk));
        assert(matching_files(ck.push(nl), nk) == matching_files(ck, nk));
        assert(matching_files(lst, nk) == matching_files(ck.push(nl), nk).push(
            utf8_lossy_of(file),
        ));
    }
}

proof fn lemma_kept_all(cs: Seq<Seq<u8>>, key: Seq<u8>)
    requires
        forall|i: int| 0 <= i < cs.len() ==> is_record(#[trigger] cs[i]) && record_key(cs[i]) != key,
    ensures
        kept_chunks(cs, key) == cs,
    decreases cs.len(),
{
    if cs.len() > 0 {
        let d = cs.drop_last();
        assert forall|i: int| 0 <= i < d.len() implies is_record(#[trigger] d[i]) && record_key(d[i])
            != key by {
            assert(d[i] == cs[i]);
        }
        lemma_kept_all(d, key);
        assert(is_record(cs[cs.len() - 1]));
        assert(cs =~= d.push(cs.last()));
    }
}

proof fn lemma_no_matching(cs: Seq<Seq<u8>>, key: Seq<u8>)
    requires
        forall|i: int| 0 <= i < cs.len() ==> record_key(#[trigger] cs[i]) != key,
    ensures
        matching_files(cs, key) == Seq::<Seq<char>>::empty(),
    decreases cs.len(),
{
    if cs.len() > 0 {
        let d = cs.drop_last();
        assert forall|i: int| 0 <= i < d.len() implies record_key(#[trigger] d[i]) != key by {
            assert(d[i] == cs[i]);
        }
        lemma_no_matching(d, key);
        assert(record_key(cs[cs.len() - 1]) != key);
    }
}

proof fn lemma_entries_closed(k: Seq<Seq<u8>>)
    requires
        all_records(k),
    ensures
        close_last(k).map_values(|c: Seq<u8>| entry_of(c)) == k.map_values(|c: Seq<u8>| entry_of(c)),
{
    if k.len() > 0 && !ends_nl(k.last()) {
        assert(is_record(k[k.len() - 1]));
        lemma_entry_closed(k.last());
    }
    assert(close_last(k).map_values(|c: Seq<u8>| entry_of(c)) =~= k.map_values(
        |c: Seq<u8>| entry_of(c),
    ));
}

proof fn lemma_without_records(s: Seq<u8>, name: Seq<u8>)
    ensures
        store_records(store_without(s, name)) == kept_chunks(chunks(s), name_key(name)),
        wf_chunks(kept_chunks(chunks(s), name_key(name))),
        all_records(kept_chunks(chunks(s), name_key(name))),
{
    lemma_store_chunks_wf(s);
    let k = kept_chunks(chunks(s), name_key(name));
    lemma_kept_wf(chunks(s), name_key(name));
    lemma_rechunk(k);
    lemma_records_of_all(k);
}

/// Installing a module and listing the registry shows the modules that were
/// there under other names, in their order, then the new module, enabled.
pub proof fn lemma_install_then_list(s: Seq<u8>, name: Seq<u8>, file: Seq<u8>, stage: u8)
    requires
        installable(name, file, stage),
    ensures
        store_entries(store_with(s, name, file, stage)) == store_entries(store_without(s, name)).push(
            installed_entry(name, file, stage),
        ),
        installed_entry(name, file, stage).enabled,
        installed_entry(name, file, stage).stage == stage,
        installed_entry(name, file, stage).file_name == utf8_lossy_of(file),
{
    lemma_install_chunks(s, name, file, stage);
    lemma_without_records(s, name);
    let k = kept_chunks(chunks(s), name_key(name));
    let body = installed_record(name, file, stage);
    lemma_entries_closed(k);
    assert(close_last(k).push(body).map_values(|c: Seq<u8>| entry_of(c)) =~= close_last(
        k,
    ).map_values(|c: Seq<u8>| entry_of(c)).push(entry_of(body)));
    assert(body[32] == 1u8);
    assert(1u8 & 1u8 != 0u8) by (bit_vector);
    assert(record_file(body) =~= file);
}

/// After an install, exactly one record carries the module's name: the
/// appended one. Earlier records of that name are gone.
pub proof fn lemma_install_replaces(s: Seq<u8>, name: Seq<u8>, file: Seq<u8>, stage: u8)
    requires
        installable(name, file, stage),
    ensures
        ({
            let rs = store_records(store_with(s, name, file, stage));
            &&& rs.len() > 0
            &&& rs.last() == installed_record(name, file, stage)
            &&& rs.drop_last() == close_last(kept_chunks(chunks(s), name_key(name)))
            &&& forall|i: int|
                0 <= i < rs.len() ==> (record_key(#[trigger] rs[i]) == name_key(name) <==> i
                    == rs.len() - 1)
        }),
{
    lemma_install_chunks(s, name, file, stage);
    let k = kept_chunks(chunks(s), name_key(name));
    let body = installed_record(name, file, stage);
    let rs = close_last(k).push(body);
    assert(rs.drop_last() =~= close_last(k));
    assert(record_key(body) =~= name_key(name));
    assert forall|i: int| 0 <= i < rs.len() implies (record_key(#[trigger] rs[i]) == name_key(name)
        <==> i == rs.len() - 1) by {
        if i < rs.len() - 1 {
            let ck = close_last(k);
            assert(rs[i] == ck[i]);
            if k.len() > 0 && !ends_nl(k.last()) && i == k.len() - 1 {
                assert(ck[i] == k.last().push(newline()));
                assert(record_key(k.last().push(newline())) =~= record_key(k[k.len() - 1]));
            } else {
                assert(ck[i] == k[i]);
            }
        }
    }
}

/// After an uninstall no record carries the module's name, and the records
/// of other names are kept, byte for byte and in order.
pub proof fn lemma_uninstall_removes(s: Seq<u8>, name: Seq<u8>)
    ensures
        ({
            let rs = store_records(store_without(s, name));
            &&& forall|i: int| 0 <= i < rs.len() ==> record_key(#[trigger] rs[i]) != name_key(name)
            &&& rs == kept_chunks(chunks(s), name_key(name))
        }),
{
    lemma_without_records(s, name);
    lemma_store_chunks_wf(s);
    lemma_kept_wf(chunks(s), name_key(name));
}

/// Uninstalling right after an install removes the module's one record and
/// reports its backing file: the registry lists what it listed before the
/// install, less any earlier record of that name.
pub proof fn lemma_install_then_uninstall(s: Seq<u8>, name: Seq<u8>, file: Seq<u8>, stage: u8)
    requires
        installable(name, file, stage),
    ensures
        store_entries(store_without(store_with(s, name, file, stage), name)) == store_entries(
            store_without(s, name),
        ),
        matching_files(chunks(store_with(s, name, file, stage)), name_key(name)) == seq![
            utf8_lossy_of(file),
        ],
{
    lemma_install_chunks(s, name, file, stage);
    lemma_without_records(s, name);
    lemma_without_records(store_with(s, name, file, stage), name);
    let k = kept_chunks(chunks(s), name_key(name));
    lemma_entries_closed(k);
}


proof fn lemma_kept_none(cs: Seq<Seq<u8>>, key: Seq<u8>)
    requires
        records_of(cs).len() == 0,
    ensures
        kept_chunks(cs, key).len() == 0,
    decreases cs.len(),
{
    if cs.len() > 0 {
        assert(!is_record(cs.last()));
        lemma_kept_none(cs.drop_last(), key);
    }
}

/// Into a registry without records (empty, or holding only chunks too short
/// to be records): after installing a module the registry lists that module
/// alone, enabled; after uninstalling it again the registry lists nothing,
/// and the uninstall names the module's backing file.
pub proof fn lemma_install_round_trip(s: Seq<u8>, name: Seq<u8>, file: Seq<u8>, stage: u8)
    requires
        store_records(s).len() == 0,
        installable(name, file, stage),
    ensures
        store_entries(store_with(s, name, file, stage)) == seq![installed_entry(name, file, stage)],
        installed_entry(name, file, stage).enabled,
        store_entries(store_without(store_with(s, name, file, stage), name)) == Seq::<
            KpmEntryView,
        >::empty(),
        matching_files(chunks(store_with(s, name, file, stage)), name_key(name)) == seq![
            utf8_lossy_of(file),
        ],
{
    let e = s;
    lemma_install_then_list(e, name, file, stage);
    lemma_install_then_uninstall(e, name, file, stage);
    lemma_kept_none(chunks(e), name_key(name));
    lemma_without_records(e, name);
    assert(store_entries(store_without(e, name)) =~= Seq::<KpmEntryView>::empty());
    assert(Seq::<KpmEntryView>::empty().push(installed_entry(name, file, stage)) =~= seq![
        installed_entry(name, file, stage),
    ]);
}

} // verus!
