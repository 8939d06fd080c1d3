//! Minimal RFC 4180 reader, enough for the collection exports members attach.
//!
//! Card names hold commas and apostrophes, so quoted fields have to be honoured
//! rather than splitting the lines on commas.

use vstd::prelude::*;

use crate::text::{chars_of, is_ws, skip_ws, string_of, trim, trim_end, trim_start};

verus! {

/// Reads the characters `rest` from a reader that has completed `records`, is
/// filling `record`, has read `field` of the current field and is inside a
/// quoted field when `quoted` holds; gives every record of the document.
///
/// Inside a quoted field a doubled quote stands for one quote and a single
/// quote closes the field. A quote opens a field only at its start, elsewhere
/// it is part of the value. Outside quotes a comma ends a field, a line feed
/// ends a record and a carriage return is dropped. A last record without line
/// ending is kept when it holds anything.
pub open spec fn csv_scan(
    rest: Seq<char>,
    records: Seq<Seq<Seq<char>>>,
    record: Seq<Seq<char>>,
    field: Seq<char>,
    quoted: bool,
) -> Seq<Seq<Seq<char>>>
    decreases rest.len(),
{
    if rest.len() == 0 {
        if field.len() > 0 || record.len() > 0 {
            records.push(record.push(field))
        } else {
            records
        }
    } else {
        let c = rest[0];
        let tail = rest.drop_first();
        if c == '"' && quoted {
            if tail.len() > 0 && tail[0] == '"' {
                csv_scan(tail.drop_first(), records, record, field.push('"'), true)
            } else {
                csv_scan(tail, records, record, field, false)
            }
        } else if c == '"' && field.len() == 0 {
            csv_scan(tail, records, record, field, true)
        } else if c == ',' && !quoted {
            csv_scan(tail, records, record.push(field), seq![], quoted)
        } else if c == '\n' && !quoted {
            csv_scan(tail, records.push(record.push(field)), seq![], seq![], quoted)
        } else if c == '\r' && !quoted {
            csv_scan(tail, records, record, field, quoted)
        } else {
            csv_scan(tail, records, record, field.push(c), quoted)
        }
    }
}

/// The records of a CSV document, each a sequence of fields.
pub open spec fn csv_records(content: Seq<char>) -> Seq<Seq<Seq<char>>> {
    csv_scan(content, seq![], seq![], seq![], false)
}

/// `f` with every quote doubled.
pub open spec fn escape_quotes(f: Seq<char>) -> Seq<char>
    decreases f.len(),
{
    if f.len() == 0 {
        seq![]
    } else if f[0] == '"' {
        seq!['"', '"'] + escape_quotes(f.drop_first())
    } else {
        seq![f[0]] + escape_quotes(f.drop_first())
    }
}

/// `f` written as a quoted CSV field.
pub open spec fn quote_field(f: Seq<char>) -> Seq<char> {
    seq!['"'] + escape_quotes(f) + seq!['"']
}

/// The fields of a record written quoted and separated by commas.
pub open spec fn record_text(fields: Seq<Seq<char>>) -> Seq<char>
    decreases fields.len(),
{
    if fields.len() == 0 {
        seq![]
    } else if fields.len() == 1 {
        quote_field(fields[0])
    } else {
        quote_field(fields[0]) + seq![','] + record_text(fields.drop_first())
    }
}

/// Records written as a CSV document, each ended by a line feed.
pub open spec fn csv_text(records: Seq<Seq<Seq<char>>>) -> Seq<char>
    decreases records.len(),
{
    if records.len() == 0 {
        seq![]
    } else {
        record_text(records[0]) + seq!['\n'] + csv_text(records.drop_first())
    }
}

proof fn lemma_scan_quoted(
    f: Seq<char>,
    rest: Seq<char>,
    records: Seq<Seq<Seq<char>>>,
    record: Seq<Seq<char>>,
    field: Seq<char>,
)
    requires
        rest.len() > 0,
        rest[0] != '"',
    ensures
        csv_scan(escape_quotes(f) + seq!['"'] + rest, records, record, field, true) == csv_scan(
            rest,
            records,
            record,
            field + f,
            false,
        ),
    decreases f.len(),
{
    let s = escape_quotes(f) + seq!['"'] + rest;
    if f.len() == 0 {
        assert(s =~= seq!['"'] + rest);
        assert(s[0] == '"');
        assert(s.drop_first() =~= rest);
        assert(field + f =~= field);
    } else {
        let f1 = f.drop_first();
        let s1 = escape_quotes(f1) + seq!['"'] + rest;
        lemma_scan_quoted(f1, rest, records, record, field.push(f[0]));
        assert(field.push(f[0]) + f1 =~= field + f);
        if f[0] == '"' {
            assert(s =~= seq!['"', '"'] + s1);
            assert(s[0] == '"');
            assert(s.drop_first()[0] == '"');
            assert(s.drop_first().drop_first() =~= s1);
        } else {
            assert(s =~= seq![f[0]] + s1);
            assert(s[0] == f[0]);
            assert(s.drop_first() =~= s1);
        }
    }
}

proof fn lemma_scan_field(
    f: Seq<char>,
    rest: Seq<char>,
    records: Seq<Seq<Seq<char>>>,
    record: Seq<Seq<char>>,
)
    requires
        rest.len() > 0,
        rest[0] != '"',
    ensures
        csv_scan(quote_field(f) + rest, records, record, seq![], false) == csv_scan(
            rest,
            records,
            record,
            f,
            false,
        ),
{
    let s = quote_field(f) + rest;
    assert(s =~= seq!['"'] + (escape_quotes(f) + seq!['"'] + rest));
    assert(s[0] == '"');
    assert(s.drop_first() =~= escape_quotes(f) + seq!['"'] + rest);
    lemma_scan_quoted(f, rest, records, record, seq![]);
    assert(Seq::<char>::empty() + f =~= f);
}

proof fn lemma_scan_record(
    fields: Seq<Seq<char>>,
    rest: Seq<char>,
    records: Seq<Seq<Seq<char>>>,
    record: Seq<Seq<char>>,
)
    requires
        fields.len() >= 1,
    ensures
        csv_scan(record_text(fields) + seq!['\n'] + rest, records, record, seq![], false) == csv_scan(
            rest,
            records.push(record + fields),
            seq![],
            seq![],
            false,
        ),
    decreases fields.len(),
{
    let f0 = fields[0];
    if fields.len() == 1 {
        let after = seq!['\n'] + rest;
        assert(record_text(fields) + seq!['\n'] + rest =~= quote_field(f0) + after);
        lemma_scan_field(f0, after, records, record);
        assert(after[0] == '\n');
        assert(after.drop_first() =~= rest);
        assert(record.push(f0) =~= record + fields);
    } else {
        let fs = fields.drop_first();
        let x = record_text(fs) + seq!['\n'] + rest;
        let after = seq![','] + x;
        assert(record_text(fields) + seq!['\n'] + rest =~= quote_field(f0) + after);
        lemma_scan_field(f0, after, records, record);
        assert(after[0] == ',');
        assert(after.drop_first() =~= x);
        lemma_scan_record(fs, rest, records, record.push(f0));
        assert(record.push(f0) + fs =~= record + fields);
    }
}

proof fn lemma_scan_text(rs: Seq<Seq<Seq<char>>>, records: Seq<Seq<Seq<char>>>)
    requires
        forall|i: int| 0 <= i < rs.len() ==> (#[trigger] rs[i]).len() >= 1,
    ensures
        csv_scan(csv_text(rs), records, seq![], seq![], false) == records + rs,
    decreases rs.len(),
{
    if rs.len() == 0 {
        assert(records + rs =~= records);
    } else {
        let t = rs.drop_first();
        assert(rs[0].len() >= 1);
        lemma_scan_record(rs[0], csv_text(t), records, seq![]);
        assert(Seq::<Seq<char>>::empty() + rs[0] =~= rs[0]);
        assert forall|i: int| 0 <= i < t.len() implies (#[trigger] t[i]).len() >= 1 by {
            assert(t[i] == rs[i + 1]);
        }
        lemma_scan_text(t, records.push(rs[0]));
        assert(records.push(rs[0]) + t =~= records + rs);
    }
}

/// Records written with every field quoted, the quotes inside it doubled, the
/// fields of a record joined by commas and every record ended by a line feed
/// are read back as they were, whatever their fields hold.
pub proof fn lemma_csv_round_trip(rs: Seq<Seq<Seq<char>>>)
    requires
        forall|i: int| 0 <= i < rs.len() ==> (#[trigger] rs[i]).len() >= 1,
    ensures
        csv_records(csv_text(rs)) == rs,
{
    lemma_scan_text(rs, seq![]);
    assert(Seq::<Seq<Seq<char>>>::empty() + rs =~= rs);
}

/// Splits a CSV document into records of fields.
pub fn parse(content: &str) -> (records: Vec<Vec<String>>)
    ensures
        records.deep_view() == csv_records(content@),
{
    let chars = chars_of(content);
    parse_chars(&chars)
}

/// Splits the characters of a CSV document into records of fields.
pub fn parse_chars(chars: &[char]) -> (records: Vec<Vec<String>>)
    ensures
        records.deep_view() == csv_records(chars@),
{
    let ghost content = chars@;
    let mut records: Vec<Vec<String>> = Vec::new();
    let mut record: Vec<String> = Vec::new();
    let mut field: Vec<char> = Vec::new();
    let mut quoted = false;
    let mut i: usize = 0;
    let n = chars.len();

    assert(chars@.skip(0) == chars@);
    assert(records.deep_view() =~= Seq::<Seq<Seq<char>>>::empty());
    assert(record.deep_view() =~= Seq::<Seq<char>>::empty());
    while i < n
        invariant
            n == chars@.len(),
            chars@ == content,
            i <= n,
            csv_scan(chars@.skip(i as int), records.deep_view(), record.deep_view(), field@, quoted)
                == csv_records(content),
        decreases n - i,
    {
        let c = chars[i];
        let ghost rest = chars@.skip(i as int);
        assert(rest[0] == c);
        assert(rest.drop_first() == chars@.skip(i + 1));
        if c == '"' && quoted {
            if i + 1 < n && chars[i + 1] == '"' {
                assert(rest.drop_first().drop_first() == chars@.skip(i + 2));
                field.push('"');
                i += 2;
            } else {
                quoted = false;
                i += 1;
            }
        } else if c == '"' && field.len() == 0 {
            quoted = true;
            i += 1;
        } else if c == ',' && !quoted {
            let ghost before = record.deep_view();
            let value = string_of(&field);
            record.push(value);
            assert(record.deep_view() =~= before.push(field@));
            field = Vec::new();
            i += 1;
        } else if c == '\n' && !quoted {
            let ghost before = record.deep_view();
            let ghost before_records = records.deep_view();
            let value = string_of(&field);
            record.push(value);
            assert(record.deep_view() =~= before.push(field@));
            records.push(record);
            assert(records.deep_view() =~= before_records.push(before.push(field@)));
            record = Vec::new();
            assert(record.deep_view() =~= Seq::<Seq<char>>::empty());
            field = Vec::new();
            i += 1;
        } else if c == '\r' && !quoted {
            i += 1;
        } else {
            field.push(c);
            i += 1;
        }
    }

    assert(chars@.skip(i as int) =~= Seq::<char>::empty());
    if field.len() > 0 || record.len() > 0 {
        let ghost before = record.deep_view();
        let ghost before_records = records.deep_view();
        let value = string_of(&field);
        record.push(value);
        assert(record.deep_view() =~= before.push(field@));
        records.push(record);
        assert(records.deep_view() =~= before_records.push(before.push(field@)));
    }
    records
}

/// A record holds nothing when every field of it is blank once trimmed.
pub open spec fn blank_record(record: Seq<Seq<char>>) -> bool {
    forall|k: int| 0 <= k < record.len() ==> trim(#[trigger] record[k]).len() == 0
}

proof fn lemma_trim_end_keeps_start(t: Seq<char>)
    requires
        t.len() > 0,
        !is_ws(t[0]),
    ensures
        trim_end(t).len() > 0,
    decreases t.len(),
{
    if t.len() > 1 && is_ws(t.last()) {
        assert(t.drop_last()[0] == t[0]);
        lemma_trim_end_keeps_start(t.drop_last());
    }
}

/// True when a record holds nothing, as a blank line does.
pub fn is_blank(record: &[String]) -> (r: bool)
    ensures
        r == blank_record(record.deep_view()),
{
    let mut k: usize = 0;
    while k < record.len()
        invariant
            k <= record@.len(),
            forall|j: int| 0 <= j < k ==> trim(#[trigger] record.deep_view()[j]).len() == 0,
        decreases record@.len() - k,
    {
        let field = chars_of(record[k].as_str());
        let start = skip_ws(&field, 0);
        assert(field@.subrange(0, field@.len() as int) == field@);
        assert(record.deep_view()[k as int] == record@[k as int]@);
        if start < field.len() {
            proof {
                let t = trim_start(field@);
                assert(t == field@.subrange(start as int, field@.len() as int));
                assert(t[0] == field@[start as int]);
                lemma_trim_end_keeps_start(t);
            }
            return false;
        }
        assert(trim_start(field@).len() == 0);
        k += 1;
    }
    true
}

} // verus!
