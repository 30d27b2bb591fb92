//! The delimited-text codec: encodes an ordered list of field values into one
//! textual row, splits a block of text into records, and decodes one record
//! into its fields.  Fields holding a delimiter, a quote or a newline are
//! wrapped in quotes with embedded quotes doubled; decoding is the exact
//! inverse, and a quoted newline is content, not a record boundary.

use crate::error::AppError;
use crate::error::AppResult;
use crate::text;
use crate::text::push_char;
use vstd::prelude::*;
use vstd::string::StrSliceExecFns;
use vstd::string::StringExecFns;

verus! {

/// A character that forces its field to be quoted.
pub open spec fn is_special_char(c: char) -> bool {
    c == ',' || c == '"' || c == '\n' || c == '\r'
}

/// Whether a field value must be wrapped in quotes.
pub open spec fn needs_quoting(s: Seq<char>) -> bool {
    exists|i: int| 0 <= i < s.len() && is_special_char(#[trigger] s[i])
}

/// The field value with every quote doubled.
pub open spec fn double_quotes(s: Seq<char>) -> Seq<char>
    decreases s.len(),
{
    if s.len() == 0 {
        Seq::empty()
    } else if s[0] == '"' {
        seq!['"', '"'] + double_quotes(s.drop_first())
    } else {
        seq![s[0]] + double_quotes(s.drop_first())
    }
}

/// The textual form of one field: quoted with doubled quotes when it holds a
/// special character, otherwise the value itself.
pub open spec fn escape_field(s: Seq<char>) -> Seq<char> {
    if needs_quoting(s) {
        seq!['"'] + double_quotes(s) + seq!['"']
    } else {
        s
    }
}

/// The textual form of one row: the escaped fields joined by the delimiter.
pub open spec fn encode_row_spec(fields: Seq<Seq<char>>) -> Seq<char>
    decreases fields.len(),
{
    if fields.len() == 0 {
        Seq::empty()
    } else if fields.len() == 1 {
        escape_field(fields[0])
    } else {
        escape_field(fields[0]) + seq![','] + encode_row_spec(fields.drop_first())
    }
}

/// One step-by-step scan of a record into fields: `cur` is the field being
/// read, `acc` the fields already read, `inq` whether the scan stands inside
/// an open quoted field.  Absent when the record ends inside an open quote.
pub open spec fn scan_fields(s: Seq<char>, cur: Seq<char>, acc: Seq<Seq<char>>, inq: bool) -> Option<
    Seq<Seq<char>>,
>
    decreases s.len(),
{
    if s.len() == 0 {
        if inq {
            None
        } else {
            Some(acc.push(cur))
        }
    } else {
        let c = s[0];
        if c == '"' {
            if inq {
                if s.len() >= 2 && s[1] == '"' {
                    scan_fields(s.skip(2), cur.push('"'), acc, true)
                } else {
                    scan_fields(s.drop_first(), cur, acc, false)
                }
            } else {
                scan_fields(s.drop_first(), cur, acc, true)
            }
        } else if c == ',' && !inq {
            scan_fields(s.drop_first(), Seq::empty(), acc.push(cur), false)
        } else {
            scan_fields(s.drop_first(), cur.push(c), acc, inq)
        }
    }
}

/// The fields one record decodes into, if its quoting is well formed.
pub open spec fn parse_line_spec(s: Seq<char>) -> Option<Seq<Seq<char>>> {
    scan_fields(s, Seq::empty(), Seq::empty(), false)
}

/// The record with its trailing carriage returns removed.
pub open spec fn trim_cr(s: Seq<char>) -> Seq<char>
    decreases s.len(),
{
    if s.len() > 0 && s.last() == '\r' {
        trim_cr(s.drop_last())
    } else {
        s
    }
}

/// One step-by-step scan of a block of text into records: a newline outside
/// quotes ends a record, quoted text is copied verbatim, and a final record
/// without a trailing newline is kept.  Absent when the text ends inside an
/// open quote.
pub open spec fn scan_records(s: Seq<char>, cur: Seq<char>, acc: Seq<Seq<char>>, inq: bool) -> Option<
    Seq<Seq<char>>,
>
    decreases s.len(),
{
    if s.len() == 0 {
        if inq {
            None
        } else if cur.len() == 0 {
            Some(acc)
        } else {
            Some(acc.push(trim_cr(cur)))
        }
    } else {
        let c = s[0];
        if c == '"' {
            if inq {
                if s.len() >= 2 && s[1] == '"' {
                    scan_records(s.skip(2), cur.push('"').push('"'), acc, true)
                } else {
                    scan_records(s.drop_first(), cur.push('"'), acc, false)
                }
            } else {
                scan_records(s.drop_first(), cur.push('"'), acc, true)
            }
        } else if c == '\n' && !inq {
            scan_records(s.drop_first(), Seq::empty(), acc.push(trim_cr(cur)), false)
        } else {
            scan_records(s.drop_first(), cur.push(c), acc, inq)
        }
    }
}

/// The records a block of text splits into, if its quoting is well formed.
pub open spec fn split_records_spec(s: Seq<char>) -> Option<Seq<Seq<char>>> {
    scan_records(s, Seq::empty(), Seq::empty(), false)
}

proof fn lemma_double_quotes_snoc(p: Seq<char>, c: char)
    ensures
        double_quotes(p.push(c)) == double_quotes(p) + (if c == '"' {
            seq!['"', '"']
        } else {
            seq![c]
        }),
    decreases p.len(),
{
    let tail: Seq<char> = if c == '"' {
        seq!['"', '"']
    } else {
        seq![c]
    };
    if p.len() == 0 {
        assert(p.push(c) =~= seq![c]);
        assert(p.push(c).drop_first() =~= Seq::<char>::empty());
        assert(double_quotes(Seq::<char>::empty()) =~= Seq::<char>::empty());
        assert(p.push(c)[0] == c);
        assert(double_quotes(p.push(c)) =~= double_quotes(p) + tail);
    } else {
        assert(p.push(c)[0] == p[0]);
        assert(p.push(c).drop_first() =~= p.drop_first().push(c));
        lemma_double_quotes_snoc(p.drop_first(), c);
        if p[0] == '"' {
            assert(double_quotes(p.push(c)) =~= double_quotes(p) + tail);
        } else {
            assert(double_quotes(p.push(c)) =~= double_quotes(p) + tail);
        }
    }
}

proof fn lemma_encode_row_snoc(p: Seq<Seq<char>>, f: Seq<char>)
    ensures
        encode_row_spec(p.push(f)) == (if p.len() == 0 {
            escape_field(f)
        } else {
            encode_row_spec(p) + seq![','] + escape_field(f)
        }),
    decreases p.len(),
{
    if p.len() == 0 {
        assert(p.push(f).len() == 1);
        assert(p.push(f)[0] == f);
        assert(encode_row_spec(p.push(f)) == escape_field(f));
    } else {
        assert(p.push(f)[0] == p[0]);
        assert(p.push(f).drop_first() =~= p.drop_first().push(f));
        lemma_encode_row_snoc(p.drop_first(), f);
        if p.len() == 1 {
            assert(encode_row_spec(p) == escape_field(p[0]));
            assert(encode_row_spec(p.push(f)) =~= encode_row_spec(p) + seq![','] + escape_field(f));
        } else {
            assert(encode_row_spec(p.push(f)) =~= encode_row_spec(p) + seq![','] + escape_field(f));
        }
    }
}

/// Wraps one field value in quotes when it holds a delimiter, a quote or a
/// newline, doubling embedded quotes; otherwise returns it unchanged.
pub fn csv_escape(value: &str) -> (r: String)
    ensures
        r@ == escape_field(value@),
{
    let n = value.unicode_len();
    let mut special = false;
    let mut i: usize = 0;
    while i < n
        invariant
            0 <= i <= n,
            n == value@.len(),
            special == exists|k: int| 0 <= k < i && is_special_char(#[trigger] value@[k]),
        decreases n - i,
    {
        let c = value.get_char(i);
        if c == ',' || c == '"' || c == '\n' || c == '\r' {
            special = true;
        }
        i = i + 1;
    }
    if !special {
        proof {
            assert(!needs_quoting(value@));
        }
        String::from_str(value)
    } else {
        let mut r = String::new();
        push_char(&mut r, '"');
        proof {
            assert(value@.subrange(0, 0) =~= Seq::<char>::empty());
            assert(Seq::<char>::empty().push('"') =~= seq!['"'] + double_quotes(
                value@.subrange(0, 0),
            ));
        }
        let mut j: usize = 0;
        while j < n
            invariant
                0 <= j <= n,
                n == value@.len(),
                needs_quoting(value@),
                r@ == seq!['"'] + double_quotes(value@.subrange(0, j as int)),
            decreases n - j,
        {
            let c = value.get_char(j);
            proof {
                lemma_double_quotes_snoc(value@.subrange(0, j as int), c);
                assert(value@.subrange(0, j as int).push(c) =~= value@.subrange(0, j as int + 1));
            }
            if c == '"' {
                push_char(&mut r, '"');
                push_char(&mut r, '"');
                proof {
                    assert(r@ =~= seq!['"'] + double_quotes(value@.subrange(0, j as int + 1)));
                }
            } else {
                push_char(&mut r, c);
                proof {
                    assert(r@ =~= seq!['"'] + double_quotes(value@.subrange(0, j as int + 1)));
                }
            }
            j = j + 1;
        }
        push_char(&mut r, '"');
        proof {
            assert(value@.subrange(0, n as int) =~= value@);
            assert(r@ =~= seq!['"'] + double_quotes(value@) + seq!['"']);
        }
        r
    }
}

/// Encodes one row from an ordered list of field values, separated by the
/// delimiter, each field escaped as needed.
pub fn csv_row(values: &Vec<String>) -> (r: String)
    ensures
        r@ == encode_row_spec(text::str_views(values@)),
{
    let ghost fv = text::str_views(values@);
    let mut r = String::new();
    proof {
        assert(fv.subrange(0, 0) =~= Seq::<Seq<char>>::empty());
    }
    let mut i: usize = 0;
    while i < values.len()
        invariant
            0 <= i <= values.len(),
            fv == text::str_views(values@),
            fv.len() == values@.len(),
            r@ == encode_row_spec(fv.subrange(0, i as int)),
        decreases values.len() - i,
    {
        if i > 0 {
            push_char(&mut r, ',');
        }
        let e = csv_escape(values[i].as_str());
        r.append(e.as_str());
        proof {
            assert(fv[i as int] == values@[i as int]@);
            lemma_encode_row_snoc(fv.subrange(0, i as int), fv[i as int]);
            assert(fv.subrange(0, i as int).push(fv[i as int]) =~= fv.subrange(0, i as int + 1));
            if i == 0 {
                assert(r@ =~= encode_row_spec(fv.subrange(0, i as int + 1)));
            } else {
                assert(r@ =~= encode_row_spec(fv.subrange(0, i as int + 1)));
            }
        }
        i = i + 1;
    }
    proof {
        assert(fv.subrange(0, values@.len() as int) =~= fv);
    }
    r
}

proof fn lemma_trim_cr_sub(s: Seq<char>, j: int, n: int)
    requires
        0 <= j <= n <= s.len(),
        forall|k: int| j <= k < n ==> s[k] == '\r',
    ensures
        trim_cr(s.subrange(0, n)) == trim_cr(s.subrange(0, j)),
    decreases n - j,
{
    if j < n {
        let t = s.subrange(0, n);
        assert(t.last() == '\r');
        assert(t.drop_last() =~= s.subrange(0, n - 1));
        lemma_trim_cr_sub(s, j, n - 1);
    }
}

/// Copies a record, dropping its trailing carriage returns.
fn trim_end_cr(s: &str) -> (r: String)
    ensures
        r@ == trim_cr(s@),
{
    let n = s.unicode_len();
    let mut j: usize = n;
    while j > 0 && s.get_char(j - 1) == '\r'
        invariant
            0 <= j <= n,
            n == s@.len(),
            forall|k: int| j <= k < n ==> s@[k] == '\r',
        decreases j,
    {
        j = j - 1;
    }
    proof {
        assert(s@.subrange(0, n as int) =~= s@);
        lemma_trim_cr_sub(s@, j as int, n as int);
        if j > 0 {
            let t = s@.subrange(0, j as int);
            assert(t.last() == s@[j - 1]);
            assert(t.last() != '\r');
            assert(trim_cr(t) == t);
        } else {
            assert(s@.subrange(0, 0) =~= Seq::<char>::empty());
        }
    }
    let mut r = String::new();
    let mut k: usize = 0;
    while k < j
        invariant
            0 <= k <= j <= n,
            n == s@.len(),
            r@ == s@.subrange(0, k as int),
        decreases j - k,
    {
        push_char(&mut r, s.get_char(k));
        proof {
            assert(s@.subrange(0, k as int).push(s@[k as int]) =~= s@.subrange(0, k as int + 1));
        }
        k = k + 1;
    }
    r
}

/// Decodes one record into its fields, scanning character by character and
/// tracking the quoted state; fails when the record ends inside an open
/// quoted field.
pub fn parse_csv_line(line: &str) -> (r: AppResult<Vec<String>>)
    ensures
        match r {
            Ok(v) => parse_line_spec(line@) == Some(text::str_views(v@)),
            Err(e) => {
                &&& parse_line_spec(line@) is None
                &&& e matches AppError::Internal(m) && m@ == "unclosed quote in csv line"@
            },
        },
{
    let n = line.unicode_len();
    let mut values: Vec<String> = Vec::new();
    let mut cur = String::new();
    let mut inq = false;
    let mut i: usize = 0;
    proof {
        assert(line@.skip(0) =~= line@);
        assert(text::str_views(values@) =~= Seq::<Seq<char>>::empty());
    }
    while i < n
        invariant
            0 <= i <= n,
            n == line@.len(),
            parse_line_spec(line@) == scan_fields(
                line@.skip(i as int),
                cur@,
                text::str_views(values@),
                inq,
            ),
        decreases n - i,
    {
        let c = line.get_char(i);
        proof {
            let s = line@.skip(i as int);
            assert(s[0] == line@[i as int]);
            assert(s.drop_first() =~= line@.skip(i as int + 1));
        }
        if c == '"' {
            if inq {
                if i + 1 < n && line.get_char(i + 1) == '"' {
                    push_char(&mut cur, '"');
                    proof {
                        let s = line@.skip(i as int);
                        assert(s.len() >= 2);
                        assert(s[1] == line@[i as int + 1]);
                        assert(s.skip(2) =~= line@.skip(i as int + 2));
                    }
                    i = i + 2;
                } else {
                    proof {
                        let s = line@.skip(i as int);
                        if i + 1 < n {
                            assert(s[1] == line@[i as int + 1]);
                        } else {
                            assert(s.len() < 2);
                        }
                    }
                    inq = false;
                    i = i + 1;
                }
            } else {
                inq = true;
                i = i + 1;
            }
        } else if c == ',' && !inq {
            let ghost vs_old = values@;
            let ghost cur_old = cur@;
            let finished = cur;
            cur = String::new();
            values.push(finished);
            proof {
                text::lemma_str_views_push(vs_old, finished);
            }
            i = i + 1;
        } else {
            push_char(&mut cur, c);
            i = i + 1;
        }
    }
    proof {
        assert(line@.skip(n as int) =~= Seq::<char>::empty());
    }
    if inq {
        return Err(AppError::Internal(String::from_str("unclosed quote in csv line")));
    }
    let ghost vs_old = values@;
    let ghost cur_old = cur@;
    values.push(cur);
    proof {
        text::lemma_str_views_push(vs_old, values@[vs_old.len() as int]);
        assert(text::str_views(values@) == text::str_views(vs_old).push(cur_old));
    }
    Ok(values)
}

/// Splits a block of text into records, treating a newline inside quotes as
/// content rather than a record boundary; fails when the text ends inside an
/// open quoted field.
pub fn split_csv_records(content: &str) -> (r: AppResult<Vec<String>>)
    ensures
        match r {
            Ok(v) => split_records_spec(content@) == Some(text::str_views(v@)),
            Err(e) => {
                &&& split_records_spec(content@) is None
                &&& e matches AppError::Internal(m) && m@ == "unclosed quote in csv line"@
            },
        },
{
    let n = content.unicode_len();
    let mut records: Vec<String> = Vec::new();
    let mut cur = String::new();
    let mut inq = false;
    let mut i: usize = 0;
    proof {
        assert(content@.skip(0) =~= content@);
        assert(text::str_views(records@) =~= Seq::<Seq<char>>::empty());
    }
    while i < n
        invariant
            0 <= i <= n,
            n == content@.len(),
            split_records_spec(content@) == scan_records(
                content@.skip(i as int),
                cur@,
                text::str_views(records@),
                inq,
            ),
        decreases n - i,
    {
        let c = content.get_char(i);
        proof {
            let s = content@.skip(i as int);
            assert(s[0] == content@[i as int]);
            assert(s.drop_first() =~= content@.skip(i as int + 1));
        }
        if c == '"' {
            push_char(&mut cur, '"');
            if inq {
                if i + 1 < n && content.get_char(i + 1) == '"' {
                    push_char(&mut cur, '"');
                    proof {
                        let s = content@.skip(i as int);
                        assert(s.len() >= 2);
                        assert(s[1] == content@[i as int + 1]);
                        assert(s.skip(2) =~= content@.skip(i as int + 2));
                    }
                    i = i + 2;
                } else {
                    proof {
                        let s = content@.skip(i as int);
                        if i + 1 < n {
                            assert(s[1] == content@[i as int + 1]);
                        } else {
                            assert(s.len() < 2);
                        }
                    }
                    inq = false;
                    i = i + 1;
                }
            } else {
                inq = true;
                i = i + 1;
            }
        } else if c == '\n' && !inq {
            let ghost rs_old = records@;
            let finished = trim_end_cr(cur.as_str());
            cur = String::new();
            records.push(finished);
            proof {
                text::lemma_str_views_push(rs_old, records@[rs_old.len() as int]);
            }
            i = i + 1;
        } else {
            push_char(&mut cur, c);
            i = i + 1;
        }
    }
    proof {
        assert(content@.skip(n as int) =~= Seq::<char>::empty());
    }
    if inq {
        return Err(AppError::Internal(String::from_str("unclosed quote in csv line")));
    }
    if cur.unicode_len() > 0 {
        let ghost rs_old = records@;
        let finished = trim_end_cr(cur.as_str());
        records.push(finished);
        proof {
            text::lemma_str_views_push(rs_old, records@[rs_old.len() as int]);
        }
    }
    Ok(records)
}

proof fn lemma_scan_plain(s: Seq<char>, rest: Seq<char>, cur: Seq<char>, acc: Seq<Seq<char>>)
    requires
        !needs_quoting(s),
    ensures
        scan_fields(s + rest, cur, acc, false) == scan_fields(rest, cur + s, acc, false),
    decreases s.len(),
{
    if s.len() == 0 {
        assert(s + rest =~= rest);
        assert(cur + s =~= cur);
    } else {
        let c = s[0];
        assert(!is_special_char(c)) by {
            if is_special_char(s[0]) {
                assert(needs_quoting(s));
            }
        }
        let t = s + rest;
        assert(t[0] == c);
        assert(t.drop_first() =~= s.drop_first() + rest);
        assert(!needs_quoting(s.drop_first())) by {
            if needs_quoting(s.drop_first()) {
                let k = choose|k: int|
                    0 <= k < s.drop_first().len() && is_special_char(#[trigger] s.drop_first()[k]);
                assert(s[k + 1] == s.drop_first()[k]);
                assert(needs_quoting(s));
            }
        }
        lemma_scan_plain(s.drop_first(), rest, cur.push(c), acc);
        assert(cur.push(c) + s.drop_first() =~= cur + s);
    }
}

proof fn lemma_scan_quoted(s: Seq<char>, rest: Seq<char>, cur: Seq<char>, acc: Seq<Seq<char>>)
    requires
        rest.len() == 0 || rest[0] != '"',
    ensures
        scan_fields(double_quotes(s) + seq!['"'] + rest, cur, acc, true) == scan_fields(
            rest,
            cur + s,
            acc,
            false,
        ),
    decreases s.len(),
{
    let t = double_quotes(s) + seq!['"'] + rest;
    if s.len() == 0 {
        assert(double_quotes(s) =~= Seq::<char>::empty());
        assert(t =~= seq!['"'] + rest);
        assert(t[0] == '"');
        assert(t.drop_first() =~= rest);
        if rest.len() == 0 {
            assert(t.len() == 1);
        } else {
            assert(t[1] == rest[0]);
        }
        assert(cur + s =~= cur);
    } else {
        let c = s[0];
        if c == '"' {
            assert(double_quotes(s) =~= seq!['"', '"'] + double_quotes(s.drop_first()));
            assert(t[0] == '"');
            assert(t.len() >= 2);
            assert(t[1] == '"');
            assert(t.skip(2) =~= double_quotes(s.drop_first()) + seq!['"'] + rest);
            lemma_scan_quoted(s.drop_first(), rest, cur.push('"'), acc);
            assert(cur.push('"') + s.drop_first() =~= cur + s);
        } else {
            assert(double_quotes(s) =~= seq![c] + double_quotes(s.drop_first()));
            assert(t[0] == c);
            assert(t.drop_first() =~= double_quotes(s.drop_first()) + seq!['"'] + rest);
            lemma_scan_quoted(s.drop_first(), rest, cur.push(c), acc);
            assert(cur.push(c) + s.drop_first() =~= cur + s);
        }
    }
}

proof fn lemma_scan_field(f: Seq<char>, rest: Seq<char>, cur: Seq<char>, acc: Seq<Seq<char>>)
    requires
        rest.len() == 0 || rest[0] == ',',
    ensures
        scan_fields(escape_field(f) + rest, cur, acc, false) == scan_fields(
            rest,
            cur + f,
            acc,
            false,
        ),
{
    if needs_quoting(f) {
        let t = escape_field(f) + rest;
        assert(t[0] == '"');
        assert(t.drop_first() =~= double_quotes(f) + seq!['"'] + rest);
        lemma_scan_quoted(f, rest, cur, acc);
    } else {
        lemma_scan_plain(f, rest, cur, acc);
    }
}

proof fn lemma_scan_row(fields: Seq<Seq<char>>, cur: Seq<char>, acc: Seq<Seq<char>>)
    requires
        fields.len() >= 1,
    ensures
        scan_fields(encode_row_spec(fields), cur, acc, false) == Some(
            acc + seq![cur + fields[0]] + fields.drop_first(),
        ),
    decreases fields.len(),
{
    if fields.len() == 1 {
        assert(encode_row_spec(fields) =~= escape_field(fields[0]) + Seq::<char>::empty());
        lemma_scan_field(fields[0], Seq::empty(), cur, acc);
        assert(scan_fields(Seq::empty(), cur + fields[0], acc, false) == Some(
            acc.push(cur + fields[0]),
        ));
        assert(acc.push(cur + fields[0]) =~= acc + seq![cur + fields[0]] + fields.drop_first());
    } else {
        let rest = seq![','] + encode_row_spec(fields.drop_first());
        assert(encode_row_spec(fields) =~= escape_field(fields[0]) + rest);
        assert(rest[0] == ',');
        lemma_scan_field(fields[0], rest, cur, acc);
        assert(rest.drop_first() =~= encode_row_spec(fields.drop_first()));
        lemma_scan_row(fields.drop_first(), Seq::empty(), acc.push(cur + fields[0]));
        let tail = fields.drop_first();
        assert(Seq::<char>::empty() + tail[0] =~= tail[0]);
        assert(acc.push(cur + fields[0]) + seq![Seq::<char>::empty() + tail[0]] + tail.drop_first()
            =~= acc + seq![cur + fields[0]] + tail);
    }
}

/// Encoding a row and decoding it reproduces the original field values
/// exactly, including values holding delimiters, quotes and newlines.
pub proof fn lemma_row_round_trip(fields: Seq<Seq<char>>)
    requires
        fields.len() >= 1,
    ensures
        parse_line_spec(encode_row_spec(fields)) == Some(fields),
{
    lemma_scan_row(fields, Seq::empty(), Seq::empty());
    assert(Seq::<char>::empty() + fields[0] =~= fields[0]);
    assert(Seq::<Seq<char>>::empty() + seq![Seq::<char>::empty() + fields[0]]
        + fields.drop_first() =~= fields);
}

/// A record that the record scanner copies verbatim: no quote, no newline,
/// no carriage return.
pub open spec fn plain_record(r: Seq<char>) -> bool {
    forall|i: int| 0 <= i < r.len() ==> #[trigger] r[i] != '"' && r[i] != '\n' && r[i] != '\r'
}

proof fn lemma_rs_plain(s: Seq<char>, rest: Seq<char>, cur: Seq<char>, recs: Seq<Seq<char>>)
    requires
        plain_record(s),
    ensures
        scan_records(s + rest, cur, recs, false) == scan_records(rest, cur + s, recs, false),
    decreases s.len(),
{
    if s.len() == 0 {
        assert(s + rest =~= rest);
        assert(cur + s =~= cur);
    } else {
        let c = s[0];
        assert(c != '"' && c != '\n');
        let t = s + rest;
        assert(t[0] == c);
        assert(t.drop_first() =~= s.drop_first() + rest);
        assert(plain_record(s.drop_first())) by {
            assert(forall|k: int|
                0 <= k < s.drop_first().len() ==> #[trigger] s.drop_first()[k] == s[k + 1]);
        }
        lemma_rs_plain(s.drop_first(), rest, cur.push(c), recs);
        assert(cur.push(c) + s.drop_first() =~= cur + s);
    }
}

proof fn lemma_rs_quoted(s: Seq<char>, rest: Seq<char>, cur: Seq<char>, recs: Seq<Seq<char>>)
    requires
        rest.len() == 0 || rest[0] != '"',
    ensures
        scan_records(double_quotes(s) + seq!['"'] + rest, cur, recs, true) == scan_records(
            rest,
            cur + double_quotes(s) + seq!['"'],
            recs,
            false,
        ),
    decreases s.len(),
{
    let t = double_quotes(s) + seq!['"'] + rest;
    if s.len() == 0 {
        assert(double_quotes(s) =~= Seq::<char>::empty());
        assert(t =~= seq!['"'] + rest);
        assert(t[0] == '"');
        assert(t.drop_first() =~= rest);
        if rest.len() == 0 {
            assert(t.len() == 1);
        } else {
            assert(t[1] == rest[0]);
        }
        assert(cur.push('"') =~= cur + double_quotes(s) + seq!['"']);
    } else {
        let c = s[0];
        if c == '"' {
            assert(double_quotes(s) =~= seq!['"', '"'] + double_quotes(s.drop_first()));
            assert(t[0] == '"');
            assert(t.len() >= 2);
            assert(t[1] == '"');
            assert(t.skip(2) =~= double_quotes(s.drop_first()) + seq!['"'] + rest);
            lemma_rs_quoted(s.drop_first(), rest, cur.push('"').push('"'), recs);
            assert(cur.push('"').push('"') + double_quotes(s.drop_first()) + seq!['"'] =~= cur
                + double_quotes(s) + seq!['"']);
        } else {
            assert(double_quotes(s) =~= seq![c] + double_quotes(s.drop_first()));
            assert(t[0] == c);
            assert(t.drop_first() =~= double_quotes(s.drop_first()) + seq!['"'] + rest);
            lemma_rs_quoted(s.drop_first(), rest, cur.push(c), recs);
            assert(cur.push(c) + double_quotes(s.drop_first()) + seq!['"'] =~= cur + double_quotes(
                s,
            ) + seq!['"']);
        }
    }
}

proof fn lemma_rs_field(f: Seq<char>, rest: Seq<char>, cur: Seq<char>, recs: Seq<Seq<char>>)
    requires
        rest.len() == 0 || rest[0] != '"',
    ensures
        scan_records(escape_field(f) + rest, cur, recs, false) == scan_records(
            rest,
            cur + escape_field(f),
            recs,
            false,
        ),
{
    if needs_quoting(f) {
        let t = escape_field(f) + rest;
        assert(t[0] == '"');
        assert(t.drop_first() =~= double_quotes(f) + seq!['"'] + rest);
        lemma_rs_quoted(f, rest, cur.push('"'), recs);
        assert(cur.push('"') + double_quotes(f) + seq!['"'] =~= cur + escape_field(f));
    } else {
        assert(plain_record(f)) by {
            assert forall|i: int| 0 <= i < f.len() implies #[trigger] f[i] != '"' && f[i] != '\n'
                && f[i] != '\r' by {
                if is_special_char(f[i]) {
                    assert(needs_quoting(f));
                }
            }
        }
        lemma_rs_plain(f, rest, cur, recs);
    }
}

proof fn lemma_rs_row(fields: Seq<Seq<char>>, rest: Seq<char>, cur: Seq<char>, recs: Seq<Seq<char>>)
    requires
        fields.len() >= 1,
        rest.len() == 0 || rest[0] != '"',
    ensures
        scan_records(encode_row_spec(fields) + rest, cur, recs, false) == scan_records(
            rest,
            cur + encode_row_spec(fields),
            recs,
            false,
        ),
    decreases fields.len(),
{
    if fields.len() == 1 {
        assert(encode_row_spec(fields) == escape_field(fields[0]));
        lemma_rs_field(fields[0], rest, cur, recs);
    } else {
        let rest2 = seq![','] + encode_row_spec(fields.drop_first()) + rest;
        assert(encode_row_spec(fields) + rest =~= escape_field(fields[0]) + rest2);
        assert(rest2[0] == ',');
        lemma_rs_field(fields[0], rest2, cur, recs);
        assert(rest2.drop_first() =~= encode_row_spec(fields.drop_first()) + rest);
        lemma_rs_row(fields.drop_first(), rest, (cur + escape_field(fields[0])).push(','), recs);
        assert((cur + escape_field(fields[0])).push(',') + encode_row_spec(fields.drop_first())
            =~= cur + encode_row_spec(fields));
    }
}

proof fn lemma_escape_last(f: Seq<char>)
    requires
        escape_field(f).len() > 0,
    ensures
        escape_field(f).last() != '\r',
        escape_field(f).len() >= 1,
{
    if needs_quoting(f) {
        assert(escape_field(f).last() == '"');
    } else {
        assert(escape_field(f) == f);
        if f.last() == '\r' {
            assert(is_special_char(f[f.len() - 1]));
            assert(needs_quoting(f));
        }
    }
}

/// An encoded row of at least two fields is never empty and never ends in a
/// carriage return, so record trimming leaves it unchanged.
pub proof fn lemma_row_no_trailing_cr(fields: Seq<Seq<char>>)
    requires
        fields.len() >= 2,
    ensures
        encode_row_spec(fields).len() >= 1,
        trim_cr(encode_row_spec(fields)) == encode_row_spec(fields),
    decreases fields.len(),
{
    let row = encode_row_spec(fields);
    if fields.len() == 2 {
        let e1 = escape_field(fields.drop_first()[0]);
        assert(encode_row_spec(fields.drop_first()) == e1);
        assert(row == escape_field(fields[0]) + seq![','] + e1);
        if e1.len() == 0 {
            assert(row.last() == ',');
        } else {
            lemma_escape_last(fields.drop_first()[0]);
            assert(row.last() == e1.last());
        }
        assert(row.last() != '\r');
    } else {
        lemma_row_no_trailing_cr(fields.drop_first());
        let tail = encode_row_spec(fields.drop_first());
        assert(row == escape_field(fields[0]) + seq![','] + tail);
        assert(row.last() == tail.last());
        assert(tail.last() != '\r') by {
            if tail.last() == '\r' {
                assert(trim_cr(tail) == trim_cr(tail.drop_last()));
                lemma_trim_cr_len(tail.drop_last());
                assert(trim_cr(tail).len() < tail.len());
            }
        }
    }
    assert(trim_cr(row) == row);
}

proof fn lemma_trim_cr_len(s: Seq<char>)
    ensures
        trim_cr(s).len() <= s.len(),
    decreases s.len(),
{
    if s.len() > 0 && s.last() == '\r' {
        lemma_trim_cr_len(s.drop_last());
    }
}

/// The text of a list of rows, each encoded and ended by a newline.
pub open spec fn rows_text(rows: Seq<Seq<Seq<char>>>) -> Seq<char>
    decreases rows.len(),
{
    if rows.len() == 0 {
        Seq::empty()
    } else {
        encode_row_spec(rows[0]) + seq!['\n'] + rows_text(rows.drop_first())
    }
}

proof fn lemma_split_rows(rows: Seq<Seq<Seq<char>>>, recs: Seq<Seq<char>>)
    requires
        forall|i: int| 0 <= i < rows.len() ==> #[trigger] rows[i].len() >= 2,
    ensures
        scan_records(rows_text(rows), Seq::empty(), recs, false) == Some(
            recs + Seq::new(rows.len(), |i: int| encode_row_spec(rows[i])),
        ),
    decreases rows.len(),
{
    if rows.len() == 0 {
        assert(recs + Seq::new(0, |i: int| encode_row_spec(rows[i])) =~= recs);
    } else {
        let row0 = encode_row_spec(rows[0]);
        let rest = seq!['\n'] + rows_text(rows.drop_first());
        assert(rows_text(rows) =~= row0 + rest);
        assert(rest[0] == '\n');
        lemma_rs_row(rows[0], rest, Seq::empty(), recs);
        assert(Seq::<char>::empty() + row0 =~= row0);
        assert(rest.drop_first() =~= rows_text(rows.drop_first()));
        lemma_row_no_trailing_cr(rows[0]);
        lemma_split_rows(rows.drop_first(), recs.push(row0));
        assert(recs.push(row0) + Seq::new(rows.drop_first().len(), |i: int| encode_row_spec(
            rows.drop_first()[i],
        )) =~= recs + Seq::new(rows.len(), |i: int| encode_row_spec(rows[i])));
    }
}

/// Splitting a block of encoded rows, each line ended by a newline, yields
/// exactly the encoded rows.
pub proof fn lemma_split_encoded_rows(rows: Seq<Seq<Seq<char>>>)
    requires
        forall|i: int| 0 <= i < rows.len() ==> #[trigger] rows[i].len() >= 2,
    ensures
        split_records_spec(rows_text(rows)) == Some(
            Seq::new(rows.len(), |i: int| encode_row_spec(rows[i])),
        ),
{
    lemma_split_rows(rows, Seq::empty());
    assert(Seq::<Seq<char>>::empty() + Seq::new(rows.len(), |i: int| encode_row_spec(rows[i]))
        =~= Seq::new(rows.len(), |i: int| encode_row_spec(rows[i])));
}

} // verus!
