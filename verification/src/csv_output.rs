//! The CSV output: rows grouped by SKU, their encoding with the `csv` crate
//! behind a UTF-8 byte-order mark, and the name of the output file.
use vstd::prelude::*;
use vstd::utf8::encode_utf8;

use crate::catalog::ImageRow;
use crate::text::{all_ascii_digits, decimal_digits, is_ascii_digit, lemma_decimal_digits, trim, trim_str};

verus! {

// ---------------------------------------------------------------------------
// Grouping rows by SKU
// ---------------------------------------------------------------------------

/// The SKUs of `rows`, each once, in the order in which they first occur.
pub open spec fn first_seen_skus(rows: Seq<ImageRow>) -> Seq<Seq<char>>
    decreases rows.len(),
{
    if rows.len() == 0 {
        Seq::empty()
    } else {
        let prev = first_seen_skus(rows.drop_last());
        if prev.contains(rows.last().sku@) {
            prev
        } else {
            prev.push(rows.last().sku@)
        }
    }
}

/// The file names of the rows of `sku`, in order.
pub open spec fn files_of_sku(rows: Seq<ImageRow>, sku: Seq<char>) -> Seq<Seq<char>> {
    rows.filter(sku_is(sku)).map_values(|r: ImageRow| r.file_name@)
}

/// Rows of the SKU `sku`.
pub open spec fn sku_is(sku: Seq<char>) -> spec_fn(ImageRow) -> bool {
    |r: ImageRow| r.sku@ == sku
}

/// The parts joined by `|`.
pub open spec fn join_with_bar(parts: Seq<Seq<char>>) -> Seq<char>
    decreases parts.len(),
{
    if parts.len() == 0 {
        Seq::empty()
    } else if parts.len() == 1 {
        parts[0]
    } else {
        join_with_bar(parts.drop_last()) + seq!['|'] + parts.last()
    }
}

/// `grouped` holds one row per SKU of `rows`, in first-seen order, whose file
/// name joins the file names of that SKU's rows with `|`.
pub open spec fn is_grouping_of(grouped: Seq<ImageRow>, rows: Seq<ImageRow>) -> bool {
    &&& grouped.len() == first_seen_skus(rows).len()
    &&& forall|i: int|
        0 <= i < grouped.len() ==> (#[trigger] grouped[i]).sku@ == first_seen_skus(rows)[i]
            && grouped[i].file_name@ == join_with_bar(files_of_sku(rows, first_seen_skus(rows)[i]))
}

pub proof fn lemma_first_seen_contains(rows: Seq<ImageRow>, s: Seq<char>)
    ensures
        first_seen_skus(rows).contains(s) <==> exists|j: int| 0 <= j < rows.len() && (#[trigger] rows[j]).sku@ == s,
    decreases rows.len(),
{
    if rows.len() > 0 {
        let p = rows.drop_last();
        lemma_first_seen_contains(p, s);
        if exists|j: int| 0 <= j < p.len() && (#[trigger] p[j]).sku@ == s {
            let j = choose|j: int| 0 <= j < p.len() && (#[trigger] p[j]).sku@ == s;
            assert(rows[j] == p[j]);
        }
        if exists|j: int| 0 <= j < rows.len() && (#[trigger] rows[j]).sku@ == s {
            let j = choose|j: int| 0 <= j < rows.len() && (#[trigger] rows[j]).sku@ == s;
            if j < p.len() {
                assert(rows[j] == p[j]);
            }
        }
        let prev = first_seen_skus(p);
        if !prev.contains(rows.last().sku@) {
            assert(prev.push(rows.last().sku@)[prev.len() as int] == rows.last().sku@);
            if prev.contains(s) {
                let k = choose|k: int| 0 <= k < prev.len() && prev[k] == s;
                assert(prev.push(rows.last().sku@)[k] == s);
            }
        }
    }
}

pub proof fn lemma_first_seen_distinct(rows: Seq<ImageRow>)
    ensures
        forall|a: int, b: int|
            0 <= a < b < first_seen_skus(rows).len() ==> #[trigger] first_seen_skus(rows)[a]
                != #[trigger] first_seen_skus(rows)[b],
    decreases rows.len(),
{
    if rows.len() > 0 {
        let prev = first_seen_skus(rows.drop_last());
        lemma_first_seen_distinct(rows.drop_last());
        if !prev.contains(rows.last().sku@) {
            let cur = prev.push(rows.last().sku@);
            assert forall|a: int, b: int| 0 <= a < b < cur.len() implies #[trigger] cur[a] != #[trigger] cur[b] by {
                if b == prev.len() {
                    assert(cur[a] == prev[a]);
                } else {
                    assert(cur[a] == prev[a] && cur[b] == prev[b]);
                }
            }
        }
    }
}

proof fn lemma_files_push(rows: Seq<ImageRow>, r: ImageRow, s: Seq<char>)
    ensures
        files_of_sku(rows.push(r), s) == (if r.sku@ == s {
            files_of_sku(rows, s).push(r.file_name@)
        } else {
            files_of_sku(rows, s)
        }),
{
    crate::catalog::lemma_filter_push(rows, sku_is(s), r);
    let f = rows.filter(sku_is(s));
    assert(f.push(r).map_values(|r: ImageRow| r.file_name@) =~= f.map_values(|r: ImageRow| r.file_name@).push(r.file_name@));
}

proof fn lemma_files_none(rows: Seq<ImageRow>, s: Seq<char>)
    requires
        !first_seen_skus(rows).contains(s),
    ensures
        files_of_sku(rows, s) == Seq::<Seq<char>>::empty(),
{
    lemma_first_seen_contains(rows, s);
    crate::catalog::lemma_filter_none(rows, sku_is(s));
    assert(Seq::<ImageRow>::empty().map_values(|r: ImageRow| r.file_name@) =~= Seq::<Seq<char>>::empty());
}

proof fn lemma_files_some(rows: Seq<ImageRow>, s: Seq<char>)
    requires
        first_seen_skus(rows).contains(s),
    ensures
        files_of_sku(rows, s).len() > 0,
{
    lemma_first_seen_contains(rows, s);
    let j = choose|j: int| 0 <= j < rows.len() && (#[trigger] rows[j]).sku@ == s;
    rows.lemma_filter_contains(sku_is(s), j);
}

/// One row per SKU, in the order in which SKUs first occur, whose file name
/// joins the file names of that SKU's rows, in order, with `|`.
pub fn group_rows_by_sku(rows: &[ImageRow]) -> (res: Vec<ImageRow>)
    ensures
        is_grouping_of(res@, rows@),
{
    let mut grouped: Vec<ImageRow> = Vec::new();
    let n = rows.len();
    let mut i: usize = 0;
    assert(rows@.take(0) =~= Seq::<ImageRow>::empty());
    while i < n
        invariant
            n == rows@.len(),
            0 <= i <= n,
            is_grouping_of(grouped@, rows@.take(i as int)),
        decreases n - i,
    {
        let ghost p = rows@.take(i as int);
        let ghost r = rows@[i as int];
        let ghost q = p.push(r);
        assert(rows@.take(i + 1) =~= q);
        assert(q.drop_last() =~= p);
        let ghost skus = first_seen_skus(p);
        let row = &rows[i];
        let mut k = grouped.len();
        while k > 0 && grouped[k - 1].sku != row.sku
            invariant
                0 <= k <= grouped@.len(),
                forall|m: int| k <= m < grouped@.len() ==> (#[trigger] grouped@[m]).sku@ != row.sku@,
            decreases k,
        {
            k = k - 1;
        }
        let ghost old_grouped = grouped@;
        if k > 0 {
            let idx = k - 1;
            proof {
                assert(skus[idx as int] == r.sku@);
                assert(skus.contains(r.sku@));
                lemma_files_some(p, r.sku@);
                lemma_first_seen_distinct(p);
            }
            let mut g = grouped.remove(idx);
            g.file_name.append("|");
            g.file_name.append(row.file_name.as_str());
            grouped.insert(idx, g);
            proof {
                assert(first_seen_skus(q) == skus);
                assert forall|m: int| 0 <= m < grouped@.len() implies (#[trigger] grouped@[m]).sku@ == first_seen_skus(q)[m]
                    && grouped@[m].file_name@ == join_with_bar(files_of_sku(q, first_seen_skus(q)[m])) by {
                    lemma_files_push(p, r, skus[m]);
                    if m == idx {
                        let parts = files_of_sku(p, skus[m]);
                        assert(parts.push(r.file_name@).drop_last() =~= parts);
                        assert("|"@ =~= seq!['|']) by {
                            reveal_strlit("|");
                        }
                    } else {
                        assert(grouped@[m] == old_grouped[m]);
                    }
                }
            }
        } else {
            proof {
                assert forall|m: int| 0 <= m < skus.len() implies skus[m] != r.sku@ by {
                    assert(old_grouped[m].sku@ == skus[m]);
                }
                assert(!skus.contains(r.sku@));
                lemma_files_none(p, r.sku@);
            }
            let g = ImageRow { file_name: row.file_name.clone(), sku: row.sku.clone() };
            grouped.push(g);
            proof {
                assert(first_seen_skus(q) == skus.push(r.sku@));
                assert forall|m: int| 0 <= m < grouped@.len() implies (#[trigger] grouped@[m]).sku@ == first_seen_skus(q)[m]
                    && grouped@[m].file_name@ == join_with_bar(files_of_sku(q, first_seen_skus(q)[m])) by {
                    let s = first_seen_skus(q)[m];
                    lemma_files_push(p, r, s);
                    if m == skus.len() {
                        assert(Seq::<Seq<char>>::empty().push(r.file_name@) =~= seq![r.file_name@]);
                    } else {
                        assert(grouped@[m] == old_grouped[m]);
                        assert(s == skus[m]);
                    }
                }
            }
        }
        i = i + 1;
    }
    assert(rows@.take(n as int) =~= rows@);
    grouped
}

/// Rows whose SKUs are all different are their own grouping.
pub proof fn lemma_grouping_distinct_rows(rows: Seq<ImageRow>)
    requires
        forall|a: int, b: int| 0 <= a < b < rows.len() ==> (#[trigger] rows[a]).sku@ != (#[trigger] rows[b]).sku@,
    ensures
        first_seen_skus(rows) == rows.map_values(|r: ImageRow| r.sku@),
        forall|i: int| 0 <= i < rows.len() ==> join_with_bar(files_of_sku(rows, (#[trigger] rows[i]).sku@)) == rows[i].file_name@,
    decreases rows.len(),
{
    if rows.len() > 0 {
        let p = rows.drop_last();
        let r = rows.last();
        assert(rows =~= p.push(r));
        assert forall|a: int, b: int| 0 <= a < b < p.len() implies (#[trigger] p[a]).sku@ != (#[trigger] p[b]).sku@ by {
            assert(p[a] == rows[a] && p[b] == rows[b]);
        }
        lemma_grouping_distinct_rows(p);
        lemma_first_seen_contains(p, r.sku@);
        assert(!first_seen_skus(p).contains(r.sku@)) by {
            if exists|j: int| 0 <= j < p.len() && (#[trigger] p[j]).sku@ == r.sku@ {
                let j = choose|j: int| 0 <= j < p.len() && (#[trigger] p[j]).sku@ == r.sku@;
                assert(rows[j] == p[j]);
            }
        }
        assert(first_seen_skus(rows) =~= rows.map_values(|x: ImageRow| x.sku@));
        assert forall|i: int| 0 <= i < rows.len() implies join_with_bar(files_of_sku(rows, (#[trigger] rows[i]).sku@)) == rows[i].file_name@ by {
            lemma_files_push(p, r, rows[i].sku@);
            if i == rows.len() - 1 {
                lemma_files_none(p, r.sku@);
                assert(Seq::<Seq<char>>::empty().push(r.file_name@) =~= seq![r.file_name@]);
            } else {
                assert(rows[i] == p[i]);
                assert(rows[i].sku@ != r.sku@);
            }
        }
    }
}

/// Grouping is idempotent: grouping rows that are already grouped changes nothing.
pub proof fn lemma_grouping_idempotent(grouped: Seq<ImageRow>, rows: Seq<ImageRow>)
    requires
        is_grouping_of(grouped, rows),
    ensures
        first_seen_skus(grouped) == grouped.map_values(|r: ImageRow| r.sku@),
        forall|i: int| 0 <= i < grouped.len() ==> join_with_bar(files_of_sku(grouped, (#[trigger] grouped[i]).sku@)) == grouped[i].file_name@,
{
    lemma_first_seen_distinct(rows);
    assert forall|a: int, b: int| 0 <= a < b < grouped.len() implies (#[trigger] grouped[a]).sku@ != (#[trigger] grouped[b]).sku@ by {
        assert(grouped[a].sku@ == first_seen_skus(rows)[a]);
        assert(grouped[b].sku@ == first_seen_skus(rows)[b]);
    }
    lemma_grouping_distinct_rows(grouped);
}


// ---------------------------------------------------------------------------
// CSV encoding
// ---------------------------------------------------------------------------

/// A field that the `csv` writer puts in quotes: it holds a delimiter, a
/// quote or a line break.
pub open spec fn csv_needs_quotes(field: Seq<char>) -> bool {
    field.contains(',') || field.contains('"') || field.contains('\r') || field.contains('\n')
}

/// The field with each `"` doubled.
pub open spec fn csv_double_quotes(field: Seq<char>) -> Seq<char>
    decreases field.len(),
{
    if field.len() == 0 {
        Seq::empty()
    } else {
        csv_double_quotes(field.drop_last()) + (if field.last() == '"' {
            seq!['"', '"']
        } else {
            seq![field.last()]
        })
    }
}

/// A field as the `csv` writer writes it.
pub open spec fn csv_field(field: Seq<char>) -> Seq<char> {
    if csv_needs_quotes(field) {
        seq!['"'] + csv_double_quotes(field) + seq!['"']
    } else {
        field
    }
}

/// A record of two fields as the `csv` writer writes it, terminator included.
pub open spec fn csv_record(first: Seq<char>, second: Seq<char>) -> Seq<char> {
    csv_field(first) + seq![','] + csv_field(second) + seq!['\n']
}

/// The bytes of one record of two fields.
pub open spec fn csv_record_bytes(first: Seq<char>, second: Seq<char>) -> Seq<u8> {
    encode_utf8(csv_record(first, second))
}

/// The UTF-8 byte-order mark that starts the file.
pub open spec fn utf8_bom() -> Seq<u8> {
    seq![0xEFu8, 0xBBu8, 0xBFu8]
}

/// The bytes of the data records for the SKUs `skus`: per SKU, its file
/// names joined with `|`, then the SKU.
pub open spec fn csv_group_bytes(rows: Seq<ImageRow>, skus: Seq<Seq<char>>) -> Seq<u8>
    decreases skus.len(),
{
    if skus.len() == 0 {
        Seq::empty()
    } else {
        csv_group_bytes(rows, skus.drop_last()) + csv_record_bytes(
            join_with_bar(files_of_sku(rows, skus.last())),
            skus.last(),
        )
    }
}

/// The whole CSV file for `rows`: byte-order mark, the header `FileName,Sku`,
/// then one record per SKU in first-seen order.
pub open spec fn image_csv_file(rows: Seq<ImageRow>) -> Seq<u8> {
    utf8_bom() + csv_record_bytes("FileName"@, "Sku"@) + csv_group_bytes(rows, first_seen_skus(rows))
}

/// One record written with `csv::Writer::write_record` into memory and taken
/// back with `into_inner`. The writer's defaults quote a field exactly when it
/// holds `,`, `"`, `\r` or `\n`, double the quotes inside it, separate fields
/// with `,` and end the record with `\n`; a record of two fields is written the
/// same whether alone or among others of two fields. Writing into a `Vec<u8>`
/// does not fail: the writer's only errors on this path are I/O errors of the
/// destination and records of unequal lengths.
#[verifier::external_body]
fn write_csv_record(first: &str, second: &str) -> (res: Vec<u8>)
    ensures
        res@ == csv_record_bytes(first@, second@),
{
    let mut writer = csv::Writer::from_writer(Vec::new());
    match writer.write_record([first, second]) {
        Ok(()) => {},
        Err(_) => return Vec::new(),
    }
    match writer.into_inner() {
        Ok(bytes) => bytes,
        Err(_) => Vec::new(),
    }
}

/// The bytes of the CSV file for `rows`, and how many data rows it holds: a
/// UTF-8 byte-order mark, the header `FileName,Sku`, then one record per SKU
/// as `group_rows_by_sku` groups the rows.
pub fn encode_image_csv(rows: &[ImageRow]) -> (res: (Vec<u8>, usize))
    ensures
        res.0@ == image_csv_file(rows@),
        res.1 == first_seen_skus(rows@).len(),
{
    let grouped = group_rows_by_sku(rows);
    let mut bytes: Vec<u8> = Vec::new();
    bytes.push(0xEF);
    bytes.push(0xBB);
    bytes.push(0xBF);
    let mut header = write_csv_record("FileName", "Sku");
    bytes.append(&mut header);
    let ghost start = bytes@;
    assert(start =~= utf8_bom() + csv_record_bytes("FileName"@, "Sku"@));
    let mut i: usize = 0;
    assert(first_seen_skus(rows@).take(0) =~= Seq::<Seq<char>>::empty());
    while i < grouped.len()
        invariant
            0 <= i <= grouped@.len(),
            is_grouping_of(grouped@, rows@),
            bytes@ == start + csv_group_bytes(rows@, first_seen_skus(rows@).take(i as int)),
        decreases grouped@.len() - i,
    {
        let mut record = write_csv_record(grouped[i].file_name.as_str(), grouped[i].sku.as_str());
        let ghost before = bytes@;
        bytes.append(&mut record);
        let ghost skus = first_seen_skus(rows@);
        assert(skus.take(i + 1).drop_last() =~= skus.take(i as int));
        assert(grouped@[i as int].sku@ == skus[i as int]);
        assert(bytes@ =~= start + csv_group_bytes(rows@, skus.take(i + 1)));
        i = i + 1;
    }
    assert(first_seen_skus(rows@).take(grouped@.len() as int) =~= first_seen_skus(rows@));
    let count = grouped.len();
    (bytes, count)
}


// ---------------------------------------------------------------------------
// Output file name
// ---------------------------------------------------------------------------

pub open spec fn is_leap_year(y: int) -> bool {
    y % 4 == 0 && (y % 100 != 0 || y % 400 == 0)
}

pub open spec fn days_in_month(y: int, m: int) -> int {
    if m == 2 {
        if is_leap_year(y) {
            29
        } else {
            28
        }
    } else if m == 4 || m == 6 || m == 9 || m == 11 {
        30
    } else {
        31
    }
}

/// A day of the proleptic Gregorian calendar within the years that
/// `chrono::NaiveDate` holds (-262143 to 262142).
pub open spec fn is_calendar_date(year: i32, month: u32, day: u32) -> bool {
    &&& -262143 <= year <= 262142
    &&& 1 <= month <= 12
    &&& 1 <= day <= days_in_month(year as int, month as int)
}

/// The dates are the days of the Gregorian calendar: January, March, May,
/// July, August, October and December have 31 days, April, June, September
/// and November 30, and February 29 in years divisible by 4 but not by 100,
/// or by 400, and 28 in the others.
pub proof fn lemma_calendar_days(year: i32, month: u32, day: u32)
    requires
        -262143 <= year <= 262142,
        1 <= month <= 12,
        1 <= day,
    ensures
        (month == 1 || month == 3 || month == 5 || month == 7 || month == 8 || month == 10 || month == 12)
            ==> (is_calendar_date(year, month, day) <==> day <= 31),
        (month == 4 || month == 6 || month == 9 || month == 11) ==> (is_calendar_date(year, month, day)
            <==> day <= 30),
        month == 2 && year % 4 == 0 && (year % 100 != 0 || year % 400 == 0) ==> (is_calendar_date(
            year,
            month,
            day,
        ) <==> day <= 29),
        month == 2 && !(year % 4 == 0 && (year % 100 != 0 || year % 400 == 0)) ==> (is_calendar_date(
            year,
            month,
            day,
        ) <==> day <= 28),
{
}

/// A year has 365 days, and 366 when February has 29.
pub proof fn lemma_year_length(y: int)
    ensures
        days_in_month(y, 1) + days_in_month(y, 2) + days_in_month(y, 3) + days_in_month(y, 4)
            + days_in_month(y, 5) + days_in_month(y, 6) + days_in_month(y, 7) + days_in_month(y, 8)
            + days_in_month(y, 9) + days_in_month(y, 10) + days_in_month(y, 11) + days_in_month(y, 12)
            == if y % 4 == 0 && (y % 100 != 0 || y % 400 == 0) {
            366int
        } else {
            365int
        },
{
}

/// A calendar date: year, month (1 to 12) and day of the month.
#[derive(Debug, Clone, Copy)]
pub struct CalendarDate {
    year: i32,
    month: u32,
    day: u32,
}

impl View for CalendarDate {
    type V = (i32, u32, u32);

    closed spec fn view(&self) -> (i32, u32, u32) {
        (self.year, self.month, self.day)
    }
}

impl CalendarDate {
    #[verifier::type_invariant]
    spec fn is_valid(self) -> bool {
        is_calendar_date(self.year, self.month, self.day)
    }

    /// The date with the given year, month and day, if there is such a day.
    pub fn new(year: i32, month: u32, day: u32) -> (res: Option<CalendarDate>)
        ensures
            res is Some <==> is_calendar_date(year, month, day),
            res matches Some(d) ==> d@ == (year, month, day),
    {
        if year < -262143 || year > 262142 || month < 1 || month > 12 || day < 1 {
            return None;
        }
        let shifted: u32 = (year + 400000) as u32;
        let leap = shifted % 4 == 0 && (shifted % 100 != 0 || shifted % 400 == 0);
        assert(leap == is_leap_year(year as int)) by {
            assert(shifted as int == year + 400000);
            assert((year + 400000) % 4 == year % 4);
            assert((year + 400000) % 100 == year % 100);
            assert((year + 400000) % 400 == year % 400);
        }
        let days: u32 = if month == 2 {
            if leap {
                29
            } else {
                28
            }
        } else if month == 4 || month == 6 || month == 9 || month == 11 {
            30
        } else {
            31
        };
        if day > days {
            return None;
        }
        Some(CalendarDate { year, month, day })
    }

    pub fn year(&self) -> (res: i32)
        ensures
            res == self@.0,
    {
        self.year
    }

    pub fn month(&self) -> (res: u32)
        ensures
            res == self@.1,
    {
        self.month
    }

    pub fn day(&self) -> (res: u32)
        ensures
            res == self@.2,
    {
        self.day
    }
}

/// The decimal digits of `n`, with leading zeros up to `width` digits.
pub open spec fn zero_padded(n: nat, width: nat) -> Seq<char> {
    let d = decimal_digits(n);
    if d.len() >= width {
        d
    } else {
        Seq::new((width - d.len()) as nat, |i: int| '0') + d
    }
}

/// A year as `%Y` writes it: four digits from 0 to 9999, a sign before other years.
pub open spec fn year_text(y: int) -> Seq<char> {
    if 0 <= y <= 9999 {
        zero_padded(y as nat, 4)
    } else if y < 0 {
        seq!['-'] + zero_padded((-y) as nat, 4)
    } else {
        seq!['+'] + zero_padded(y as nat, 4)
    }
}

/// A date as `%Y%m%d` writes it.
pub open spec fn date_stamp(year: int, month: nat, day: nat) -> Seq<char> {
    year_text(year) + zero_padded(month, 2) + zero_padded(day, 2)
}

/// The date formatted by `chrono::NaiveDate::format` with `%Y%m%d`, the date
/// being made by `chrono::NaiveDate::from_ymd_opt`. chrono writes `%Y` as the
/// year zero-padded to four digits, with a sign before years outside 0 to
/// 9999, and `%m` and `%d` zero-padded to two digits; `from_ymd_opt` makes a
/// date of every calendar day in chrono's range of years.
#[verifier::external_body]
fn chrono_date_stamp(year: i32, month: u32, day: u32) -> (res: String)
    requires
        is_calendar_date(year, month, day),
    ensures
        res@ == date_stamp(year as int, month as nat, day as nat),
{
    match chrono::NaiveDate::from_ymd_opt(year, month, day) {
        Some(date) => date.format("%Y%m%d").to_string(),
        None => String::new(),
    }
}

/// The default name of the output file: `images_` and the date as `%Y%m%d`,
/// then `.csv`.
pub open spec fn default_file_name_of(date: (i32, u32, u32)) -> Seq<char> {
    "images_"@ + date_stamp(date.0 as int, date.1 as nat, date.2 as nat) + ".csv"@
}

/// The default name of the output file for `date`.
pub fn default_output_file_name(date: CalendarDate) -> (res: String)
    ensures
        res@ == default_file_name_of(date@),
{
    proof {
        use_type_invariant(&date);
    }
    let stamp = chrono_date_stamp(date.year, date.month, date.day);
    let mut name = String::from_str("images_");
    name.append(stamp.as_str());
    name.append(".csv");
    name
}

pub open spec fn is_path_separator(c: char) -> bool {
    c == '/' || c == '\\'
}

/// A single path component with no separator and no drive prefix.
pub open spec fn is_plain_component(s: Seq<char>) -> bool {
    s.len() > 0 && !s.contains('/') && !s.contains('\\') && !s.contains(':')
}

/// A directory path to which `Path::join` adds a separator and nothing else.
pub open spec fn is_plain_directory(s: Seq<char>) -> bool {
    s.len() > 0 && !is_path_separator(s.last()) && !s.contains('\\') && !s.contains(':')
}

/// A single path component other than `.` and `..`: every platform appends
/// it to a path as it is.
pub open spec fn is_plain_file_name(s: Seq<char>) -> bool {
    is_plain_component(s) && s != seq!['.'] && s != seq!['.', '.']
}

/// A path that starts at the root on every platform and has no Windows
/// prefix: one `/` first, and no `\` and no `:`.
pub open spec fn is_rooted_path(s: Seq<char>) -> bool {
    &&& s.len() > 0
    &&& s[0] == '/'
    &&& !(s.len() > 1 && s[1] == '/')
    &&& !s.contains('\\')
    &&& !s.contains(':')
}

/// A path with no Windows prefix: no drive (`:`), no `\`, and no leading `//`.
pub open spec fn has_no_prefix(s: Seq<char>) -> bool {
    !s.contains('\\') && !s.contains(':') && !(s.len() > 1 && s[0] == '/' && s[1] == '/')
}

/// `s` ends with `t`.
pub open spec fn ends_with(s: Seq<char>, t: Seq<char>) -> bool {
    t.len() <= s.len() && s.skip(s.len() - t.len()) == t
}

/// A relative path with neither a root nor a Windows prefix on any platform:
/// not empty, no leading `/`, and no `\` and no `:`.
pub open spec fn is_relative_path(s: Seq<char>) -> bool {
    &&& s.len() > 0
    &&& s[0] != '/'
    &&& !s.contains('\\')
    &&& !s.contains(':')
}

/// `name` adjoined to the directory `dir` by `std::path::Path::join`
/// (`PathBuf::push`). A relative name is appended as it is written: to an
/// empty directory it is the whole result, after a directory that ends in `/`
/// nothing is put between them, and otherwise the platform's separator (`/`
/// or `\`) is; a single plain component ends the result whatever the
/// directory, and follows the directory as it is written, with or without a
/// separator, for every directory but a verbatim (`\\?\`) one, which
/// `PathBuf::push` rewrites. A name that starts at the root replaces a directory that has no
/// Windows prefix. For other paths the way `Path::join` treats roots, prefixes
/// and separators depends on the platform and is left unstated.
#[verifier::external_body]
fn path_join(dir: &str, name: &str) -> (res: String)
    ensures
        is_plain_directory(dir@) && is_plain_component(name@) ==> res@ == dir@ + seq!['/'] + name@
            || res@ == dir@ + seq!['\\'] + name@,
        is_plain_file_name(name@) ==> ends_with(res@, name@),
        is_rooted_path(name@) && has_no_prefix(dir@) ==> res@ == name@,
        is_relative_path(name@) && dir@.len() == 0 ==> res@ == name@,
        is_plain_file_name(name@) && !dir@.contains('?') ==> res@ == dir@ + name@ || res@ == dir@ + seq!['/']
            + name@ || res@ == dir@ + seq!['\\'] + name@,
        is_relative_path(name@) && has_no_prefix(dir@) && dir@.len() > 0 && dir@.last() == '/' ==> res@
            == dir@ + name@,
        is_relative_path(name@) && has_no_prefix(dir@) && dir@.len() > 0 && dir@.last() != '/' ==> res@
            == dir@ + seq!['/'] + name@ || res@ == dir@ + seq!['\\'] + name@,
{
    std::path::Path::new(dir).join(name).to_string_lossy().into_owned()
}

/// `s` holds no `/`, `\` or `:`.
pub open spec fn has_no_path_chars(s: Seq<char>) -> bool {
    !s.contains('/') && !s.contains('\\') && !s.contains(':')
}

proof fn lemma_digits_have_no_path_chars(s: Seq<char>)
    requires
        all_ascii_digits(s),
    ensures
        has_no_path_chars(s),
{
    assert forall|i: int| 0 <= i < s.len() implies #[trigger] s[i] != '/' && s[i] != '\\' && s[i] != ':' by {
        assert(is_ascii_digit(s[i]));
    }
}

proof fn lemma_concat_has_no_path_chars(a: Seq<char>, b: Seq<char>)
    requires
        has_no_path_chars(a),
        has_no_path_chars(b),
    ensures
        has_no_path_chars(a + b),
{
    assert forall|c: char| c == '/' || c == '\\' || c == ':' implies !(a + b).contains(c) by {
        if (a + b).contains(c) {
            let i = choose|i: int| 0 <= i < (a + b).len() && (a + b)[i] == c;
            if i < a.len() {
                assert(a[i] == c);
            } else {
                assert(b[i - a.len()] == c);
            }
        }
    }
}

proof fn lemma_zero_padded_digits(n: nat, width: nat)
    ensures
        all_ascii_digits(zero_padded(n, width)),
        zero_padded(n, width).len() > 0,
{
    let d = decimal_digits(n);
    lemma_decimal_digits(n);
    if d.len() < width {
        let z = zero_padded(n, width);
        let pad = Seq::new((width - d.len()) as nat, |i: int| '0');
        assert(z == pad + d);
        assert forall|i: int| 0 <= i < z.len() implies is_ascii_digit(#[trigger] z[i]) by {
            if i >= pad.len() {
                assert(z[i] == d[i - pad.len()]);
            }
        }
    }
}

/// The default output file name is a single plain file name, so it lands in
/// the output directory itself.
pub proof fn lemma_default_file_name_plain(date: (i32, u32, u32))
    ensures
        is_plain_file_name(default_file_name_of(date)),
{
    let (y, m, d) = date;
    let year = y as int;
    reveal_strlit("images_");
    reveal_strlit(".csv");
    assert(has_no_path_chars("images_"@)) by {
        assert forall|i: int| 0 <= i < "images_"@.len() implies #[trigger] "images_"@[i] != '/' && "images_"@[i] != '\\' && "images_"@[i] != ':' by {}
    }
    assert(has_no_path_chars(".csv"@)) by {
        assert forall|i: int| 0 <= i < ".csv"@.len() implies #[trigger] ".csv"@[i] != '/' && ".csv"@[i] != '\\' && ".csv"@[i] != ':' by {}
    }
    let padded = if 0 <= year <= 9999 {
        year as nat
    } else if year < 0 {
        (-year) as nat
    } else {
        year as nat
    };
    lemma_zero_padded_digits(padded, 4);
    lemma_digits_have_no_path_chars(zero_padded(padded, 4));
    if !(0 <= year <= 9999) {
        let sign = if year < 0 {
            seq!['-']
        } else {
            seq!['+']
        };
        assert(has_no_path_chars(sign));
        lemma_concat_has_no_path_chars(sign, zero_padded(padded, 4));
    }
    assert(has_no_path_chars(year_text(year)));
    lemma_zero_padded_digits(m as nat, 2);
    lemma_digits_have_no_path_chars(zero_padded(m as nat, 2));
    lemma_zero_padded_digits(d as nat, 2);
    lemma_digits_have_no_path_chars(zero_padded(d as nat, 2));
    lemma_concat_has_no_path_chars(year_text(year), zero_padded(m as nat, 2));
    lemma_concat_has_no_path_chars(year_text(year) + zero_padded(m as nat, 2), zero_padded(d as nat, 2));
    let stamp = date_stamp(year, m as nat, d as nat);
    lemma_concat_has_no_path_chars("images_"@, stamp);
    lemma_concat_has_no_path_chars("images_"@ + stamp, ".csv"@);
    assert(default_file_name_of(date).len() > 2);
}

/// Where the CSV file goes.
#[derive(Debug, Clone)]
pub struct ImageOutputTarget {
    pub images_csv: String,
}

/// The name of the output file: the given name without surrounding white
/// space when that leaves something, the dated default otherwise.
pub open spec fn chosen_file_name(date: (i32, u32, u32), output_file_name: Option<Seq<char>>) -> Seq<char> {
    match output_file_name {
        Some(n) => if trim(n).len() > 0 {
            trim(n)
        } else {
            default_file_name_of(date)
        },
        None => default_file_name_of(date),
    }
}

/// The output file in `output_dir`: named `output_file_name`, trimmed, when
/// that is not blank, else `images_YYYYMMDD.csv` for `date`.
pub fn build_image_output_target(
    output_dir: &str,
    date: CalendarDate,
    output_file_name: Option<&str>,
) -> (res: ImageOutputTarget)
    ensures
        ({
            let name = chosen_file_name(
                date@,
                match output_file_name {
                    Some(n) => Some(n@),
                    None => None,
                },
            );
            &&& is_plain_directory(output_dir@) && is_plain_component(name) ==> res.images_csv@
                == output_dir@ + seq!['/'] + name || res.images_csv@ == output_dir@ + seq!['\\']
                + name
            &&& is_plain_file_name(name) ==> ends_with(res.images_csv@, name)
            &&& is_rooted_path(name) && has_no_prefix(output_dir@) ==> res.images_csv@ == name
            &&& is_relative_path(name) && output_dir@.len() == 0 ==> res.images_csv@ == name
            &&& is_plain_file_name(name) && !output_dir@.contains('?') ==> res.images_csv@ == output_dir@
                + name || res.images_csv@ == output_dir@ + seq!['/'] + name || res.images_csv@
                == output_dir@ + seq!['\\'] + name
            &&& is_relative_path(name) && has_no_prefix(output_dir@) && output_dir@.len() > 0
                && output_dir@.last() == '/' ==> res.images_csv@ == output_dir@ + name
            &&& is_relative_path(name) && has_no_prefix(output_dir@) && output_dir@.len() > 0
                && output_dir@.last() != '/' ==> res.images_csv@ == output_dir@ + seq!['/'] + name
                || res.images_csv@ == output_dir@ + seq!['\\'] + name
        }),
{
    let file_name = match output_file_name {
        Some(value) => {
            let trimmed = trim_str(value);
            if !trimmed.is_empty() {
                trimmed.to_owned()
            } else {
                default_output_file_name(date)
            }
        },
        None => default_output_file_name(date),
    };
    ImageOutputTarget { images_csv: path_join(output_dir, file_name.as_str()) }
}

} // verus!
