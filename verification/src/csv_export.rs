//! Writing the journal as comma-separated text.
//!
//! Every field is written between double quotes, with each double quote
//! inside it doubled; fields are separated by commas and every record ends
//! with a line feed.  The first record is the header of column names.
use vstd::prelude::*;
use crate::text::{chars_of, push_all, replace, replace_all, string_of, texts_view};

verus! {

/// A field written between double quotes, inner double quotes doubled.
pub open spec fn quote_field(v: Seq<char>) -> Seq<char> {
    seq!['"'] + replace_all(v, seq!['"'], seq!['"', '"']) + seq!['"']
}

/// Fields separated by commas.
pub open spec fn join_fields(fs: Seq<Seq<char>>) -> Seq<char>
    decreases fs.len(),
{
    if fs.len() == 0 {
        seq![]
    } else if fs.len() == 1 {
        fs[0]
    } else {
        join_fields(fs.drop_last()) + seq![','] + fs.last()
    }
}

/// One record: the quoted fields joined by commas, then a line feed.
pub open spec fn csv_record(row: Seq<Seq<char>>) -> Seq<char> {
    join_fields(row.map_values(|v: Seq<char>| quote_field(v))) + seq!['\n']
}

/// The records of all rows, one after the other.
pub open spec fn csv_records(rows: Seq<Seq<Seq<char>>>) -> Seq<char>
    decreases rows.len(),
{
    if rows.len() == 0 {
        seq![]
    } else {
        csv_records(rows.drop_last()) + csv_record(rows.last())
    }
}

/// The column names of an exported journal, in order.
pub open spec fn csv_header() -> Seq<char> {
    "id,symbol,direction,strategy_tag,entry_date,entry_time,exit_date,exit_time,entry_price,exit_price,stop_loss,take_profit,position_size,fees,planned_rr,actual_rr,pnl_gross,pnl_net,pnl_percent,plan_setup_reason,plan_market_condition,plan_confidence,emotion_entry,emotion_exit,followed_plan,mistake_tags,lesson_learned,notes,screenshot_entry_path,screenshot_exit_path,status,created_at,updated_at"@
}

/// The exported text of a journal whose trades have the given field texts:
/// empty for no trades, else the header line followed by one record per trade.
pub open spec fn journal_csv(rows: Seq<Seq<Seq<char>>>) -> Seq<char> {
    if rows.len() == 0 {
        seq![]
    } else {
        csv_header() + seq!['\n'] + csv_records(rows)
    }
}

pub open spec fn rows_view(rows: Seq<Vec<String>>) -> Seq<Seq<Seq<char>>> {
    rows.map_values(|r: Vec<String>| texts_view(r@))
}

/// Appends the quoted form of `v` to `out`.
fn push_quoted(out: &mut Vec<char>, v: &str, quote: &Vec<char>, doubled: &Vec<char>)
    requires
        quote@ == seq!['"'],
        doubled@ == seq!['"', '"'],
    ensures
        final(out)@ == old(out)@ + quote_field(v@),
{
    let inner = replace(&chars_of(v), quote, doubled);
    let ghost start = out@;
    out.push('"');
    push_all(out, &inner);
    out.push('"');
    assert(out@ =~= start + quote_field(v@));
}

/// Appends the record of `row` to `out`.
fn push_record(out: &mut Vec<char>, row: &Vec<String>, quote: &Vec<char>, doubled: &Vec<char>)
    requires
        quote@ == seq!['"'],
        doubled@ == seq!['"', '"'],
    ensures
        final(out)@ == old(out)@ + csv_record(texts_view(row@)),
{
    let ghost start = out@;
    let ghost quoted = texts_view(row@).map_values(|v: Seq<char>| quote_field(v));
    let mut i: usize = 0;
    while i < row.len()
        invariant
            i <= row@.len(),
            quote@ == seq!['"'],
            doubled@ == seq!['"', '"'],
            quoted == texts_view(row@).map_values(|v: Seq<char>| quote_field(v)),
            quoted.len() == row@.len(),
            out@ == start + join_fields(quoted.take(i as int)),
        decreases row@.len() - i,
    {
        let ghost before = out@;
        if i > 0 {
            out.push(',');
        }
        push_quoted(out, row[i].as_str(), quote, doubled);
        assert(quoted[i as int] == quote_field(row@[i as int]@));
        assert(quoted.take(i + 1).drop_last() =~= quoted.take(i as int));
        if i == 0 {
            assert(quoted.take(1) =~= seq![quoted[0]]);
        }
        i = i + 1;
        assert(out@ =~= start + join_fields(quoted.take(i as int)));
    }
    assert(quoted.take(row@.len() as int) =~= quoted);
    out.push('\n');
}

/// The exported text of a journal, given the field texts of each trade.
pub fn journal_csv_text(rows: &Vec<Vec<String>>) -> (res: String)
    ensures
        res@ == journal_csv(rows_view(rows@)),
{
    let ghost all = rows_view(rows@);
    if rows.len() == 0 {
        let res = String::new();
        assert(res@ =~= journal_csv(all));
        return res;
    }
    let header = "id,symbol,direction,strategy_tag,entry_date,entry_time,exit_date,exit_time,entry_price,exit_price,stop_loss,take_profit,position_size,fees,planned_rr,actual_rr,pnl_gross,pnl_net,pnl_percent,plan_setup_reason,plan_market_condition,plan_confidence,emotion_entry,emotion_exit,followed_plan,mistake_tags,lesson_learned,notes,screenshot_entry_path,screenshot_exit_path,status,created_at,updated_at";
    let mut out = chars_of(header);
    out.push('\n');
    let quote = vec!['"'];
    let doubled = vec!['"', '"'];
    assert(quote@ =~= seq!['"']);
    assert(doubled@ =~= seq!['"', '"']);
    let ghost start = out@;
    let mut i: usize = 0;
    while i < rows.len()
        invariant
            i <= rows@.len(),
            all == rows_view(rows@),
            all.len() == rows@.len(),
            quote@ == seq!['"'],
            doubled@ == seq!['"', '"'],
            out@ == start + csv_records(all.take(i as int)),
        decreases rows@.len() - i,
    {
        push_record(&mut out, &rows[i], &quote, &doubled);
        assert(all.take(i + 1).drop_last() =~= all.take(i as int));
        assert(all[i as int] == texts_view(rows@[i as int]@));
        i = i + 1;
        assert(out@ =~= start + csv_records(all.take(i as int)));
    }
    assert(all.take(rows@.len() as int) =~= all);
    string_of(&out)
}

// ---------------------------------------------------------------------------
// Quoting loses nothing
// ---------------------------------------------------------------------------

/// The inverse of doubling quotes: a doubled quote becomes one quote.
pub open spec fn undouble_quotes(s: Seq<char>) -> Seq<char>
    decreases s.len(),
{
    if s.len() == 0 {
        seq![]
    } else if s.len() >= 2 && s[0] == '"' && s[1] == '"' {
        seq!['"'] + undouble_quotes(s.skip(2))
    } else {
        seq![s[0]] + undouble_quotes(s.drop_first())
    }
}

proof fn lemma_undouble_doubled(v: Seq<char>)
    ensures
        undouble_quotes(replace_all(v, seq!['"'], seq!['"', '"'])) == v,
    decreases v.len(),
{
    let q = seq!['"'];
    let d = seq!['"', '"'];
    if v.len() > 0 {
        let r = replace_all(v, q, d);
        if crate::text::occurs_at(v, q, 0) {
            assert(v.subrange(0, 1) == q);
            assert(v.subrange(0, 1)[0] == v[0]);
            assert(q[0] == '"');
            assert(v[0] == '"');
            lemma_undouble_doubled(v.skip(1));
            let rest = replace_all(v.skip(1), q, d);
            assert(r == d + rest);
            assert(r.skip(2) =~= rest);
            assert(v =~= q + v.skip(1));
        } else {
            assert(v[0] != '"') by {
                if v[0] == '"' {
                    assert(v.subrange(0, 1) =~= q);
                }
            }
            lemma_undouble_doubled(v.drop_first());
            let rest = replace_all(v.drop_first(), q, d);
            assert(r == seq![v[0]] + rest);
            assert(r.drop_first() =~= rest);
            assert(v =~= seq![v[0]] + v.drop_first());
        }
    }
}

/// Quoting is one-to-one: two fields with the same quoted form are equal, so
/// the exported text determines every field.
pub proof fn lemma_quote_field_injective(a: Seq<char>, b: Seq<char>)
    requires
        quote_field(a) == quote_field(b),
    ensures
        a == b,
{
    let q = seq!['"'];
    let d = seq!['"', '"'];
    let ra = replace_all(a, q, d);
    let rb = replace_all(b, q, d);
    let qa = quote_field(a);
    assert(qa.subrange(1, qa.len() - 1) =~= ra);
    assert(quote_field(b).subrange(1, quote_field(b).len() - 1) =~= rb);
    lemma_undouble_doubled(a);
    lemma_undouble_doubled(b);
}

// ---------------------------------------------------------------------------
// Reading the exported records back
// ---------------------------------------------------------------------------

/// Reads the rest of a quoted field, after its opening quote: the field's
/// text (a doubled quote stands for one quote) and what follows the closing
/// quote.
pub open spec fn read_quoted(s: Seq<char>) -> Option<(Seq<char>, Seq<char>)>
    decreases s.len(),
{
    if s.len() == 0 {
        None
    } else if s[0] == '"' {
        if s.len() >= 2 && s[1] == '"' {
            match read_quoted(s.skip(2)) {
                Some((b, r)) => Some((seq!['"'] + b, r)),
                None => None,
            }
        } else {
            Some((seq![], s.drop_first()))
        }
    } else {
        match read_quoted(s.drop_first()) {
            Some((b, r)) => Some((seq![s[0]] + b, r)),
            None => None,
        }
    }
}

pub proof fn lemma_read_quoted_shorter(s: Seq<char>)
    ensures
        read_quoted(s) matches Some((b, r)) ==> r.len() < s.len(),
    decreases s.len(),
{
    if s.len() > 0 {
        if s[0] == '"' {
            if s.len() >= 2 && s[1] == '"' {
                lemma_read_quoted_shorter(s.skip(2));
            }
        } else {
            lemma_read_quoted_shorter(s.drop_first());
        }
    }
}

/// Reads one record of quoted fields separated by commas and ended by a line
/// feed: its fields and the text after it.
pub open spec fn read_record(s: Seq<char>) -> Option<(Seq<Seq<char>>, Seq<char>)>
    decreases s.len(),
{
    if s.len() == 0 || s[0] != '"' {
        None
    } else {
        match read_quoted(s.drop_first()) {
            Some((f, r)) => {
                proof {
                    lemma_read_quoted_shorter(s.drop_first());
                }
                if r.len() > 0 && r[0] == ',' {
                    match read_record(r.drop_first()) {
                        Some((fs, rest)) => Some((seq![f] + fs, rest)),
                        None => None,
                    }
                } else if r.len() > 0 && r[0] == '\n' {
                    Some((seq![f], r.drop_first()))
                } else {
                    None
                }
            },
            None => None,
        }
    }
}

pub proof fn lemma_read_record_shorter(s: Seq<char>)
    ensures
        read_record(s) matches Some((fs, r)) ==> r.len() < s.len(),
    decreases s.len(),
{
    if s.len() > 0 && s[0] == '"' {
        lemma_read_quoted_shorter(s.drop_first());
        if let Some((f, r)) = read_quoted(s.drop_first()) {
            if r.len() > 0 && r[0] == ',' {
                lemma_read_record_shorter(r.drop_first());
            }
        }
    }
}

/// Reads records until the text ends.
pub open spec fn read_records(s: Seq<char>) -> Option<Seq<Seq<Seq<char>>>>
    decreases s.len(),
{
    if s.len() == 0 {
        Some(seq![])
    } else {
        match read_record(s) {
            Some((fs, rest)) => {
                proof {
                    lemma_read_record_shorter(s);
                }
                match read_records(rest) {
                    Some(rs) => Some(seq![fs] + rs),
                    None => None,
                }
            },
            None => None,
        }
    }
}

/// A field's escaped text, its closing quote and any text not starting with
/// a quote read back as the field and that text.
proof fn lemma_read_escaped(v: Seq<char>, tail: Seq<char>)
    requires
        !(tail.len() > 0 && tail[0] == '"'),
    ensures
        read_quoted(replace_all(v, seq!['"'], seq!['"', '"']) + seq!['"'] + tail) == Some((v, tail)),
    decreases v.len(),
{
    let q = seq!['"'];
    let d = seq!['"', '"'];
    let s = replace_all(v, q, d) + q + tail;
    if v.len() == 0 {
        assert(s =~= q + tail);
        assert(s.drop_first() =~= tail);
    } else if crate::text::occurs_at(v, q, 0) {
        assert(v.subrange(0, 1) == q);
        assert(v.subrange(0, 1)[0] == v[0]);
        lemma_read_escaped(v.skip(1), tail);
        let rest = replace_all(v.skip(1), q, d);
        assert(s =~= d + (rest + q + tail));
        assert(s.skip(2) =~= rest + q + tail);
        assert(v =~= q + v.skip(1));
    } else {
        assert(v[0] != '"') by {
            if v[0] == '"' {
                assert(v.subrange(0, 1) =~= q);
            }
        }
        lemma_read_escaped(v.drop_first(), tail);
        let rest = replace_all(v.drop_first(), q, d);
        assert(s =~= seq![v[0]] + (rest + q + tail));
        assert(s.drop_first() =~= rest + q + tail);
        assert(v =~= seq![v[0]] + v.drop_first());
    }
}

/// Fields joined by commas, taken from the front.
proof fn lemma_join_front(fs: Seq<Seq<char>>)
    requires
        fs.len() >= 2,
    ensures
        join_fields(fs) == fs[0] + seq![','] + join_fields(fs.drop_first()),
    decreases fs.len(),
{
    let dl = fs.drop_last();
    let df = fs.drop_first();
    if fs.len() > 2 {
        lemma_join_front(dl);
        assert(dl.drop_first() =~= df.drop_last());
        assert(dl[0] == fs[0]);
        assert(df.last() == fs.last());
        assert(join_fields(df) == join_fields(df.drop_last()) + seq![','] + df.last());
        assert(join_fields(fs) == join_fields(dl) + seq![','] + fs.last());
        assert(join_fields(fs) =~= fs[0] + seq![','] + join_fields(df));
    } else {
        assert(dl =~= seq![fs[0]]);
        assert(df =~= seq![fs[1]]);
        assert(join_fields(dl) == fs[0]);
        assert(join_fields(df) == fs[1]);
        assert(join_fields(fs) == join_fields(dl) + seq![','] + fs.last());
        assert(join_fields(fs) =~= fs[0] + seq![','] + join_fields(df));
    }
}

/// A record of at least one field reads back as its fields.
pub proof fn lemma_record_reads_back(row: Seq<Seq<char>>, tail: Seq<char>)
    requires
        row.len() >= 1,
    ensures
        read_record(csv_record(row) + tail) == Some((row, tail)),
    decreases row.len(),
{
    let qf = row.map_values(|v: Seq<char>| quote_field(v));
    let q = seq!['"'];
    let d = seq!['"', '"'];
    let esc = replace_all(row[0], q, d);
    if row.len() == 1 {
        assert(qf =~= seq![quote_field(row[0])]);
        let s = csv_record(row) + tail;
        assert(s =~= q + (esc + q + (seq!['\n'] + tail)));
        assert(s.drop_first() =~= esc + q + (seq!['\n'] + tail));
        lemma_read_escaped(row[0], seq!['\n'] + tail);
        assert((seq!['\n'] + tail).drop_first() =~= tail);
        assert(seq![row[0]] =~= row);
    } else {
        let rest = row.drop_first();
        lemma_join_front(qf);
        assert(qf.drop_first() =~= rest.map_values(|v: Seq<char>| quote_field(v)));
        let after = csv_record(rest) + tail;
        let s = csv_record(row) + tail;
        assert(s =~= q + (esc + q + (seq![','] + after)));
        assert(s.drop_first() =~= esc + q + (seq![','] + after));
        lemma_read_escaped(row[0], seq![','] + after);
        assert((seq![','] + after).drop_first() =~= after);
        lemma_record_reads_back(rest, tail);
        assert(seq![row[0]] + rest =~= row);
    }
}

/// The records, taken from the front.
proof fn lemma_records_front(rows: Seq<Seq<Seq<char>>>)
    requires
        rows.len() >= 1,
    ensures
        csv_records(rows) == csv_record(rows[0]) + csv_records(rows.drop_first()),
    decreases rows.len(),
{
    if rows.len() > 1 {
        lemma_records_front(rows.drop_last());
        assert(rows.drop_last().drop_first() =~= rows.drop_first().drop_last());
        assert(rows.drop_last()[0] == rows[0]);
        assert(rows.drop_first().last() == rows.last());
    } else {
        assert(rows.drop_last() =~= Seq::<Seq<Seq<char>>>::empty());
        assert(rows.drop_first() =~= Seq::<Seq<Seq<char>>>::empty());
    }
}

/// The exported records read back, as comma-separated text with quoted
/// fields, as exactly the rows they were written from (when every row has a
/// field, as every trade has); the export is the header line followed by them.
pub proof fn lemma_export_reads_back(rows: Seq<Seq<Seq<char>>>)
    requires
        forall|i: int| 0 <= i < rows.len() ==> (#[trigger] rows[i]).len() >= 1,
    ensures
        rows.len() > 0 ==> journal_csv(rows) == csv_header() + seq!['\n'] + csv_records(rows),
        read_records(csv_records(rows)) == Some(rows),
    decreases rows.len(),
{
    if rows.len() > 0 {
        let rest = rows.drop_first();
        assert forall|i: int| 0 <= i < rest.len() implies (#[trigger] rest[i]).len() >= 1 by {
            assert(rest[i] == rows[i + 1]);
        }
        lemma_export_reads_back(rest);
        lemma_records_front(rows);
        lemma_record_reads_back(rows[0], csv_records(rest));
        let s = csv_records(rows);
        assert(s.len() > 0) by {
            assert(csv_record(rows[0]).len() > 0);
        }
        assert(seq![rows[0]] + rest =~= rows);
    } else {
        assert(csv_records(rows) =~= Seq::<char>::empty());
    }
}

} // verus!
