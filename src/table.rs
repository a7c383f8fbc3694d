//! Text formats around the privilege table: the system's package listing,
//! the CSV table file, and the one-value configuration files.

use vstd::prelude::*;
use crate::package::{
    configs_view, live_view, LivePackage, LivePackageView, PackageConfig, PackageConfigView,
    WhitelistMode,
};
use crate::text::{decimal, decimal_of, digit_char, digits_of, digits_value, i32_of, is_ascii_digit, parse_i32, split_words, trim, trim_ws, words_of};

verus! {

/// A line of the package listing: `name uid ... flags`, with at least three
/// words; the package is a system app when its last word is `@system`.
pub open spec fn live_line_of(line: Seq<char>) -> Option<LivePackageView> {
    let w = words_of(line);
    if w.len() >= 3 {
        Some(
            LivePackageView {
                pkg: w[0],
                uid: i32_of(w[1]),
                is_system_app: w.last() == "@system"@,
            },
        )
    } else {
        None
    }
}

/// The packages of a listing, one per well-formed line, in order.
pub open spec fn live_list_of(lines: Seq<Seq<char>>) -> Seq<LivePackageView>
    decreases lines.len(),
{
    if lines.len() == 0 {
        seq![]
    } else {
        let e = live_list_of(lines.drop_last());
        match live_line_of(lines.last()) {
            Some(l) => e.push(l),
            None => e,
        }
    }
}

/// Reads one line of the package listing.
pub fn parse_package_line(line: &str) -> (r: Option<LivePackage>)
    ensures
        r matches Some(l) ==> live_line_of(line@) == Some(l@),
        r is None ==> live_line_of(line@) is None,
{
    let words = split_words(line);
    proof {
        assert(words.deep_view().len() == words@.len());
    }
    if words.len() < 3 {
        return None;
    }
    proof {
        assert(words.deep_view()[0] == words@[0]@);
        assert(words.deep_view()[1] == words@[1]@);
        assert(words.deep_view().last() == words@[words@.len() - 1]@);
    }
    let system = "@system".to_owned();
    let is_system_app = words[words.len() - 1] == system;
    Some(
        LivePackage {
            pkg: words[0].clone(),
            uid: parse_i32(words[1].as_str()),
            is_system_app,
        },
    )
}

/// Reads the package listing, skipping lines that are not well formed.
pub fn parse_package_list(lines: &Vec<String>) -> (r: Vec<LivePackage>)
    ensures
        live_view(r@) == live_list_of(lines.deep_view()),
{
    let ghost ls = lines.deep_view();
    let mut out: Vec<LivePackage> = Vec::new();
    let mut i: usize = 0;
    while i < lines.len()
        invariant
            i <= lines@.len(),
            ls == lines.deep_view(),
            live_view(out@) == live_list_of(ls.take(i as int)),
        decreases lines.len() - i,
    {
        proof {
            assert(ls.take(i + 1).drop_last() =~= ls.take(i as int));
            assert(ls[i as int] == lines@[i as int]@);
        }
        match parse_package_line(lines[i].as_str()) {
            Some(l) => {
                let ghost before = out@;
                out.push(l);
                assert(live_view(out@) =~= live_view(before).push(out@.last()@));
            },
            None => {},
        }
        i = i + 1;
    }
    assert(ls.take(lines@.len() as int) =~= ls);
    out
}

impl WhitelistMode {
    /// The mode of a stored code; unknown codes disable provisioning.
    pub open spec fn spec_from_code(code: i32) -> WhitelistMode {
        if code == 0 {
            WhitelistMode::NonSystemOnly
        } else if code == 1 {
            WhitelistMode::SystemOnly
        } else if code == 2 {
            WhitelistMode::All
        } else {
            WhitelistMode::Disabled
        }
    }

    pub fn from_code(code: i32) -> (r: WhitelistMode)
        ensures
            r == Self::spec_from_code(code),
    {
        if code == 0 {
            WhitelistMode::NonSystemOnly
        } else if code == 1 {
            WhitelistMode::SystemOnly
        } else if code == 2 {
            WhitelistMode::All
        } else {
            WhitelistMode::Disabled
        }
    }
}

/// The mode stored in the whitelist file: an integer, blank-trimmed; an
/// unreadable file or an unparsable value disables provisioning.
pub open spec fn whitelist_mode_of(content: Option<Seq<char>>) -> WhitelistMode {
    match content {
        Some(c) => match i32_of(trim_ws(c)) {
            Some(v) => WhitelistMode::spec_from_code(v),
            None => WhitelistMode::Disabled,
        },
        None => WhitelistMode::Disabled,
    }
}

/// Reads the whitelist file's content; `None` when it could not be read.
pub fn whitelist_mode(content: &Option<String>) -> (r: WhitelistMode)
    ensures
        r == whitelist_mode_of(content.deep_view()),
{
    match content {
        Some(c) => match parse_i32(trim(c.as_str())) {
            Some(v) => WhitelistMode::from_code(v),
            None => WhitelistMode::Disabled,
        },
        None => WhitelistMode::Disabled,
    }
}

/// Manager identity used when the identity file cannot be read.
pub open spec fn default_manager() -> Seq<char> {
    "me.bmax.apatch"@
}

/// Reads the manager identity file's content, blank-trimmed; `None` when it
/// could not be read.
pub fn manager_package_id(content: &Option<String>) -> (r: String)
    ensures
        r@ == match content.deep_view() {
            Some(c) => trim_ws(c),
            None => default_manager(),
        },
{
    match content {
        Some(c) => trim(c.as_str()).to_owned(),
        None => "me.bmax.apatch".to_owned(),
    }
}


/// What the `csv` crate reads from `data` as header-less records of any
/// length: each record's fields, or `None` for a record that is not valid UTF-8.
pub uninterp spec fn csv_records_of(data: Seq<u8>) -> Seq<Option<Seq<Seq<char>>>>;

/// What the `csv` crate writes for `rows`.
pub uninterp spec fn csv_text_of(rows: Seq<Seq<Seq<char>>>) -> Seq<u8>;

pub open spec fn records_view(v: Seq<Option<Vec<String>>>) -> Seq<Option<Seq<Seq<char>>>> {
    v.map_values(
        |o: Option<Vec<String>>|
            match o {
                Some(f) => Some(f.deep_view()),
                None => None,
            },
    )
}

/// Relies on `csv::Reader` (no header row, records of any length): the
/// records of `data` in order, a record that fails to read standing as `None`
/// while reading goes on with the next one.
#[verifier::external_body]
fn csv_read_records(data: &[u8]) -> (r: Vec<Option<Vec<String>>>)
    ensures
        records_view(r@) == csv_records_of(data@),
{
    let mut rdr = csv::ReaderBuilder::new().has_headers(false).flexible(true).from_reader(data);
    rdr.records().map(|rec| rec.ok().map(|fields| fields.iter().map(String::from).collect())).collect()
}

/// Relies on `csv::Writer` (into a `Vec`): the CSV text of `rows`, fields
/// quoted where needed; it fails only on records of unequal length.
#[verifier::external_body]
fn csv_write_records(rows: &Vec<Vec<String>>) -> (r: Option<Vec<u8>>)
    ensures
        r matches Some(b) ==> b@ == csv_text_of(rows.deep_view()),
        (forall|i: int| 0 <= i < rows@.len() ==> (#[trigger] rows@[i])@.len() == rows@[0]@.len())
            ==> r is Some,
{
    let mut wtr = csv::WriterBuilder::new().has_headers(false).from_writer(Vec::new());
    for row in rows {
        if wtr.write_record(row).is_err() {
            return None;
        }
    }
    wtr.into_inner().ok()
}

/// The fields of a table row: `pkg,exclude,allow,uid,to_uid,sctx`.
pub open spec fn row_of_config(c: PackageConfigView) -> Seq<Seq<char>> {
    seq![
        c.pkg,
        decimal_of(c.exclude as int),
        decimal_of(c.allow as int),
        decimal_of(c.uid as int),
        decimal_of(c.to_uid as int),
        c.sctx,
    ]
}

/// A table row read back: six fields, the middle four integers.
pub open spec fn config_of_row(row: Seq<Seq<char>>) -> Option<PackageConfigView> {
    if row.len() == 6 && i32_of(row[1]) is Some && i32_of(row[2]) is Some && i32_of(row[3]) is Some
        && i32_of(row[4]) is Some {
        Some(
            PackageConfigView {
                pkg: row[0],
                exclude: i32_of(row[1])->0,
                allow: i32_of(row[2])->0,
                uid: i32_of(row[3])->0,
                to_uid: i32_of(row[4])->0,
                sctx: row[5],
            },
        )
    } else {
        None
    }
}

/// The table rows among the records: records that do not read, or are not
/// valid table rows, are skipped.
pub open spec fn configs_of_rows(rows: Seq<Option<Seq<Seq<char>>>>) -> Seq<PackageConfigView>
    decreases rows.len(),
{
    if rows.len() == 0 {
        seq![]
    } else {
        let e = configs_of_rows(rows.drop_last());
        match rows.last() {
            Some(fields) => match config_of_row(fields) {
                Some(c) => e.push(c),
                None => e,
            },
            None => e,
        }
    }
}

/// The table that a file holds: its valid rows, in file order.
pub open spec fn table_of(data: Seq<u8>) -> Seq<PackageConfigView> {
    configs_of_rows(csv_records_of(data))
}

fn config_from_row(row: &Vec<String>) -> (r: Option<PackageConfig>)
    ensures
        match r {
            Some(c) => config_of_row(row.deep_view()) == Some(c@),
            None => config_of_row(row.deep_view()) is None,
        },
{
    let ghost d = row.deep_view();
    if row.len() != 6 {
        return None;
    }
    proof {
        assert forall|i: int| 0 <= i < 6 implies d[i] == row@[i]@ by {}
    }
    let exclude = parse_i32(row[1].as_str());
    let allow = parse_i32(row[2].as_str());
    let uid = parse_i32(row[3].as_str());
    let to_uid = parse_i32(row[4].as_str());
    match (exclude, allow, uid, to_uid) {
        (Some(exclude), Some(allow), Some(uid), Some(to_uid)) => Some(
            PackageConfig {
                pkg: row[0].clone(),
                exclude,
                allow,
                uid,
                to_uid,
                sctx: row[5].clone(),
            },
        ),
        _ => None,
    }
}

/// Decodes the table file's bytes into its valid rows, in file order;
/// malformed records are skipped.
pub fn decode_package_config(data: &[u8]) -> (r: Vec<PackageConfig>)
    ensures
        configs_view(r@) == table_of(data@),
{
    let rows = csv_read_records(data);
    let ghost d = records_view(rows@);
    let mut out: Vec<PackageConfig> = Vec::new();
    let mut i: usize = 0;
    while i < rows.len()
        invariant
            i <= rows@.len(),
            d == records_view(rows@),
            d == csv_records_of(data@),
            configs_of_rows(d.take(i as int)) == configs_view(out@),
        decreases rows.len() - i,
    {
        proof {
            assert(d.take(i + 1).drop_last() =~= d.take(i as int));
            assert(d.take(i + 1).last() == d[i as int]);
        }
        match &rows[i] {
            Some(fields) => {
                assert(d[i as int] == Some(fields.deep_view()));
                match config_from_row(fields) {
                    Some(c) => {
                        let ghost before = out@;
                        out.push(c);
                        assert(configs_view(out@) =~= configs_view(before).push(c@));
                    },
                    None => {},
                }
            },
            None => {},
        }
        i = i + 1;
    }
    assert(d.take(rows@.len() as int) =~= d);
    out
}

/// The CSV bytes of a table, one row per line.
pub fn encode_package_config(configs: &Vec<PackageConfig>) -> (r: Vec<u8>)
    ensures
        r@ == csv_text_of(configs_view(configs@).map_values(
            |c: PackageConfigView| row_of_config(c),
        )),
{
    let ghost want = configs_view(configs@).map_values(|c: PackageConfigView| row_of_config(c));
    let mut rows: Vec<Vec<String>> = Vec::new();
    let mut i: usize = 0;
    while i < configs.len()
        invariant
            i <= configs@.len(),
            want == configs_view(configs@).map_values(|c: PackageConfigView| row_of_config(c)),
            rows.deep_view() == want.take(i as int),
            forall|j: int| 0 <= j < rows@.len() ==> (#[trigger] rows@[j])@.len() == 6,
        decreases configs.len() - i,
    {
        let c = &configs[i];
        let mut row: Vec<String> = Vec::new();
        row.push(c.pkg.clone());
        row.push(decimal(c.exclude));
        row.push(decimal(c.allow));
        row.push(decimal(c.uid));
        row.push(decimal(c.to_uid));
        row.push(c.sctx.clone());
        assert(row.deep_view() =~= row_of_config(c@));
        let ghost before = rows.deep_view();
        rows.push(row);
        assert(rows.deep_view() =~= before.push(row_of_config(c@)));
        assert(want.take(i + 1) =~= want.take(i as int).push(want[i as int]));
        i = i + 1;
    }
    assert(want.take(configs@.len() as int) =~= want);
    match csv_write_records(&rows) {
        Some(b) => b,
        None => {
            proof {
                // every row has six fields, so the writer cannot fail
                assert(forall|j: int| 0 <= j < rows@.len() ==> (#[trigger] rows@[j])@.len()
                    == rows@[0]@.len());
                assert(false);
            }
            Vec::new()
        },
    }
}


proof fn lemma_digit_char(k: int)
    requires
        0 <= k < 10,
    ensures
        digit_char(k) as int - '0' as int == k,
        is_ascii_digit(digit_char(k)),
{
    assert('0' as int == 48 && '1' as int == 49 && '2' as int == 50 && '3' as int == 51 && '4' as int
        == 52 && '5' as int == 53 && '6' as int == 54 && '7' as int == 55 && '8' as int == 56
        && '9' as int == 57);
}

proof fn lemma_digits(n: nat)
    ensures
        digits_of(n).len() > 0,
        forall|i: int| 0 <= i < digits_of(n).len() ==> is_ascii_digit(#[trigger] digits_of(n)[i]),
        digits_value(digits_of(n)) == n,
    decreases n,
{
    if n < 10 {
        let d = digits_of(n);
        lemma_digit_char(n as int);
        assert(d[0] == digit_char(n as int));
        assert(d.last() == d[0]);
        assert(d.drop_last() =~= Seq::<char>::empty());
        assert(digits_value(d.drop_last()) == 0);
        assert(digits_value(d) == digits_value(d.drop_last()) * 10 + (d.last() as int - '0' as int));
    } else {
        lemma_digits(n / 10);
        let e = digits_of(n / 10);
        let d = digits_of(n);
        assert(d == e.push(digit_char((n % 10) as int)));
        assert(d.drop_last() =~= e);
        lemma_digit_char((n % 10) as int);
        assert(d.last() == digit_char((n % 10) as int));
        assert forall|i: int| 0 <= i < d.len() implies is_ascii_digit(#[trigger] d[i]) by {
            if i < e.len() {
                assert(d[i] == e[i]);
            }
        }
        assert(digits_value(d) == digits_value(e) * 10 + (n % 10) as int);
        assert((n / 10) * 10 + n % 10 == n) by (nonlinear_arith);
    }
}

/// A row written for a table row reads back as that row.
pub proof fn lemma_row_round_trip(c: PackageConfigView)
    ensures
        config_of_row(row_of_config(c)) == Some(c),
{
    assert forall|v: i32| i32_of(#[trigger] decimal_of(v as int)) == Some(v) by {
        if v < 0 {
            let m = (-(v as int)) as nat;
            lemma_digits(m);
            let s = decimal_of(v as int);
            assert(s.drop_first() =~= digits_of(m));
        } else {
            lemma_digits(v as nat);
            let s = decimal_of(v as int);
            assert(is_ascii_digit(s[0]));
        }
    }
    let r = row_of_config(c);
    assert(i32_of(r[1]) == Some(c.exclude));
    assert(i32_of(r[2]) == Some(c.allow));
    assert(i32_of(r[3]) == Some(c.uid));
    assert(i32_of(r[4]) == Some(c.to_uid));
}

} // verus!
