//! The tabular rendering of a computed record sequence: a header row, a
//! separator, and one fixed-width row per record.

use crate::analysis::{
    all_values_ok, chrono_sort, compute_spec, dec1_str, format_change, format_change_spec,
    format_percent, format_percent_spec, format_value, monthly, record_at, records_of,
    records_view, value_at, EmploymentChange, RecordView,
};
use crate::api::SeriesView;
use crate::numeric::{
    lemma_parse_fixed_in_range, percent_hundredths, round_div, MAX_FORMAT, MAX_UNITS,
};
use vstd::math::abs;
use vstd::prelude::*;
use vstd::string::{StrSliceExecFns, StringExecFns};

verus! {

/// `n` spaces.
pub open spec fn spaces(n: nat) -> Seq<char> {
    Seq::new(n, |i: int| ' ')
}

/// `n` dashes.
pub open spec fn dashes(n: nat) -> Seq<char> {
    Seq::new(n, |i: int| '-')
}

/// `s` right-aligned in a field of width `w`; text wider than the field is
/// kept whole.
pub open spec fn pad_left(s: Seq<char>, w: nat) -> Seq<char> {
    if s.len() >= w {
        s
    } else {
        spaces((w - s.len()) as nat) + s
    }
}

/// `s` left-aligned in a field of width `w`; text wider than the field is
/// kept whole.
pub open spec fn pad_right(s: Seq<char>, w: nat) -> Seq<char> {
    if s.len() >= w {
        s
    } else {
        s + spaces((w - s.len()) as nat)
    }
}

/// The table's column headers: year and month left-aligned, the three
/// numeric columns right-aligned, one space between fields.
pub open spec fn header_str() -> Seq<char> {
    pad_right("Year"@, 12) + seq![' '] + pad_right("Month"@, 15) + seq![' '] + pad_left(
        "Employment (K)"@,
        15,
    ) + seq![' '] + pad_left("Change (K)"@, 15) + seq![' '] + pad_left("% Change"@, 15)
}

/// One table row: the record's fields in the same five columns, the value
/// to one decimal place and the deltas as the formatters render them.
pub open spec fn row_str(r: RecordView) -> Seq<char> {
    pad_right(r.year, 12) + seq![' '] + pad_right(r.month, 15) + seq![' '] + pad_left(
        dec1_str(r.value),
        15,
    ) + seq![' '] + pad_left(format_change_spec(r.change), 15) + seq![' '] + pad_left(
        format_percent_spec(r.percent_change),
        15,
    )
}

/// The rows in order, each ended by a newline.
pub open spec fn rows_str(rs: Seq<RecordView>) -> Seq<char>
    decreases rs.len(),
{
    if rs.len() == 0 {
        Seq::empty()
    } else {
        rows_str(rs.drop_last()) + row_str(rs.last()) + seq!['\n']
    }
}

/// The whole table: header, an eighty-dash separator, then the rows.
pub open spec fn table_str(rs: Seq<RecordView>) -> Seq<char> {
    header_str() + seq!['\n'] + dashes(80) + seq!['\n'] + rows_str(rs)
}

/// The record's numbers are small enough for the formatters' fixed-width
/// arithmetic; everything the calculator emits is far inside this bound.
pub open spec fn record_in_range(r: RecordView) -> bool {
    &&& -MAX_FORMAT <= r.value <= MAX_FORMAT
    &&& (r.change matches Some(c) ==> -MAX_FORMAT <= c <= MAX_FORMAT)
    &&& (r.percent_change matches Some(p) ==> -MAX_FORMAT <= p <= MAX_FORMAT)
}

proof fn lemma_percent_in_range(c: int, p: int)
    requires
        -2 * MAX_UNITS <= c <= 2 * MAX_UNITS,
        -MAX_UNITS < p < MAX_UNITS,
    ensures
        -MAX_FORMAT <= percent_hundredths(c, p) <= MAX_FORMAT,
{
    if p != 0 {
        let n = abs(c) as int * 10000;
        let d = abs(p) as int;
        let q = round_div(n, d);
        vstd::arithmetic::div_mod::lemma_div_pos_is_pos(2 * n + d, 2 * d);
        vstd::arithmetic::div_mod::lemma_div_is_ordered_by_denominator(2 * n + d, 2, 2 * d);
        vstd::arithmetic::div_mod::lemma_fundamental_div_mod(2 * n + d, 2);
        assert(q <= n + d);
    }
}

/// Whatever the calculator produces, the renderer accepts: every record of
/// a computed sequence is inside the formatters' bound.
pub proof fn lemma_computed_records_in_range(s: SeriesView)
    requires
        compute_spec(s) is Ok,
    ensures
        forall|i: int|
            0 <= i < compute_spec(s)->Ok_0.len() ==> record_in_range(
                #[trigger] compute_spec(s)->Ok_0[i],
            ),
{
    let ms = monthly(chrono_sort(s.data));
    assert(compute_spec(s)->Ok_0 == records_of(ms));
    assert(all_values_ok(ms));
    assert forall|i: int| 0 <= i < records_of(ms).len() implies record_in_range(
        #[trigger] records_of(ms)[i],
    ) by {
        assert(records_of(ms)[i] == record_at(ms, i));
        lemma_parse_fixed_in_range(ms[i].value);
        if i > 0 {
            lemma_parse_fixed_in_range(ms[i - 1].value);
            lemma_percent_in_range(
                value_at(ms, i) - value_at(ms, i - 1),
                value_at(ms, i - 1),
            );
        }
    }
}

/// Checks `record_in_range` over a whole record vector, for callers
/// outside verified code.
pub fn records_in_range(changes: &Vec<EmploymentChange>) -> (b: bool)
    ensures
        b == forall|i: int|
            0 <= i < changes@.len() ==> record_in_range(#[trigger] records_view(changes@)[i]),
{
    let mut i: usize = 0;
    while i < changes.len()
        invariant
            0 <= i <= changes@.len(),
            forall|k: int|
                0 <= k < i ==> record_in_range(#[trigger] records_view(changes@)[k]),
        decreases changes@.len() - i,
    {
        let c = &changes[i];
        proof {
            assert(c@ == records_view(changes@)[i as int]);
        }
        if !(-MAX_FORMAT <= c.value && c.value <= MAX_FORMAT) {
            return false;
        }
        match c.change {
            Some(v) => if !(-MAX_FORMAT <= v && v <= MAX_FORMAT) {
                return false;
            },
            None => {}
        }
        match c.percent_change {
            Some(v) => if !(-MAX_FORMAT <= v && v <= MAX_FORMAT) {
                return false;
            },
            None => {}
        }
        i = i + 1;
    }
    true
}

/// Appends `n` spaces.
fn push_spaces(s: &mut String, n: usize)
    ensures
        final(s)@ == old(s)@ + spaces(n as nat),
{
    let mut k: usize = 0;
    proof {
        assert(s@ =~= s@ + spaces(0));
    }
    while k < n
        invariant
            0 <= k <= n,
            s@ == old(s)@ + spaces(k as nat),
        decreases n - k,
    {
        s.append(" ");
        proof {
            reveal_strlit(" ");
            assert(spaces((k + 1) as nat) =~= spaces(k as nat).push(' '));
            assert(s@ =~= old(s)@ + spaces((k + 1) as nat));
        }
        k = k + 1;
    }
}

/// Appends `t` right-aligned in a field of width `w`.
fn push_padded_left(s: &mut String, t: &str, w: usize)
    ensures
        final(s)@ == old(s)@ + pad_left(t@, w as nat),
{
    let len = t.unicode_len();
    if len < w {
        push_spaces(s, w - len);
    }
    s.append(t);
    proof {
        assert(s@ =~= old(s)@ + pad_left(t@, w as nat));
    }
}

/// Appends `t` left-aligned in a field of width `w`.
fn push_padded_right(s: &mut String, t: &str, w: usize)
    ensures
        final(s)@ == old(s)@ + pad_right(t@, w as nat),
{
    let len = t.unicode_len();
    s.append(t);
    if len < w {
        push_spaces(s, w - len);
    }
    proof {
        assert(s@ =~= old(s)@ + pad_right(t@, w as nat));
    }
}

/// Appends one record's table row and its newline.
#[verifier::rlimit(100)]
fn push_row(s: &mut String, c: &EmploymentChange)
    requires
        record_in_range(c@),
    ensures
        final(s)@ == old(s)@ + row_str(c@) + seq!['\n'],
{
    push_padded_right(s, c.year.as_str(), 12);
    s.append(" ");
    push_padded_right(s, c.month.as_str(), 15);
    s.append(" ");
    let val = format_value(c.value);
    push_padded_left(s, val.as_str(), 15);
    s.append(" ");
    let ch = format_change(c.change);
    push_padded_left(s, ch.as_str(), 15);
    s.append(" ");
    let pc = format_percent(c.percent_change);
    push_padded_left(s, pc.as_str(), 15);
    s.append("\n");
    proof {
        reveal_strlit(" ");
        reveal_strlit("\n");
        assert(s@ =~= old(s)@ + row_str(c@) + seq!['\n']);
    }
}

/// Renders the records as a fixed-width table, exactly as `table_str`
/// describes.
pub fn render_table(changes: &Vec<EmploymentChange>) -> (r: String)
    requires
        forall|i: int|
            0 <= i < changes@.len() ==> record_in_range(#[trigger] records_view(changes@)[i]),
    ensures
        r@ == table_str(records_view(changes@)),
{
    let ghost rv: Seq<RecordView> = records_view(changes@);
    let mut s = String::new();
    push_padded_right(&mut s, "Year", 12);
    s.append(" ");
    push_padded_right(&mut s, "Month", 15);
    s.append(" ");
    push_padded_left(&mut s, "Employment (K)", 15);
    s.append(" ");
    push_padded_left(&mut s, "Change (K)", 15);
    s.append(" ");
    push_padded_left(&mut s, "% Change", 15);
    s.append("\n");
    proof {
        reveal_strlit(" ");
        reveal_strlit("\n");
        assert(s@ =~= header_str() + seq!['\n'] + dashes(0));
    }
    let mut k: usize = 0;
    while k < 80
        invariant
            0 <= k <= 80,
            s@ == header_str() + seq!['\n'] + dashes(k as nat),
        decreases 80 - k,
    {
        s.append("-");
        proof {
            reveal_strlit("-");
            assert(dashes((k + 1) as nat) =~= dashes(k as nat).push('-'));
            assert(s@ =~= header_str() + seq!['\n'] + dashes((k + 1) as nat));
        }
        k = k + 1;
    }
    s.append("\n");
    let ghost head: Seq<char> = header_str() + seq!['\n'] + dashes(80) + seq!['\n'];
    proof {
        reveal_strlit("\n");
        assert(s@ =~= head + rows_str(rv.take(0)));
    }
    let mut i: usize = 0;
    while i < changes.len()
        invariant
            0 <= i <= changes@.len(),
            rv == records_view(changes@),
            forall|j: int| 0 <= j < changes@.len() ==> record_in_range(#[trigger] rv[j]),
            head == header_str() + seq!['\n'] + dashes(80) + seq!['\n'],
            s@ == head + rows_str(rv.take(i as int)),
        decreases changes@.len() - i,
    {
        let c = &changes[i];
        proof {
            assert(c@ == rv[i as int]);
        }
        push_row(&mut s, c);
        proof {
            assert(rv.take(i + 1).drop_last() =~= rv.take(i as int));
            assert(rv.take(i + 1).last() == rv[i as int]);
            assert(s@ =~= head + rows_str(rv.take(i + 1)));
        }
        i = i + 1;
    }
    proof {
        assert(rv.take(changes@.len() as int) =~= rv);
        assert(s@ =~= table_str(rv));
    }
    s
}

} // verus!
