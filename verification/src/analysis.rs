//! The change calculator and the delta formatters.
//!
//! `calculate_changes` validates and chronologically orders a series' raw
//! observations, excludes annual-aggregate rows, parses the surviving
//! values, and derives each month's absolute and percentage change relative
//! to the previous month. The formatters render one optional delta as a
//! fixed-precision signed string.

use crate::api::{points_view, BlsDataPoint, BlsSeries, DataPointView, SeriesView};
use crate::error::{BlsError, ErrorView};
use crate::numeric::{
    char_digit, dec_str, digit_char, digits_val, is_digit, parse_fixed, parse_fixed_spec,
    percent_hundredths, percent_of, round_div, units_to_tenths, append_digit, push_decimal,
    lemma_parse_fixed_in_range, MAX_FORMAT, MAX_UNITS,
};
use vstd::math::abs;
use vstd::prelude::*;
use vstd::string::{StrSliceExecFns, StringExecFns};

verus! {

/// One derived observation: the month's value in fixed-point units
/// (ten-thousandths), and its change against the previous month. The
/// changes are `None` exactly for the first record of a series, which has
/// no predecessor; `percent_change` is in hundredths of a percent, rounded
/// half away from zero.
pub struct EmploymentChange {
    pub year: String,
    pub month: String,
    pub value: i128,
    pub change: Option<i128>,
    pub percent_change: Option<i128>,
}

/// Mathematical image of an [`EmploymentChange`].
pub struct RecordView {
    pub year: Seq<char>,
    pub month: Seq<char>,
    pub value: int,
    pub change: Option<int>,
    pub percent_change: Option<int>,
}

/// The image of an optional machine integer.
pub open spec fn opt_int(o: Option<i128>) -> Option<int> {
    match o {
        Some(v) => Some(v as int),
        None => None,
    }
}

impl View for EmploymentChange {
    type V = RecordView;

    open spec fn view(&self) -> RecordView {
        RecordView {
            year: self.year@,
            month: self.month@,
            value: self.value as int,
            change: opt_int(self.change),
            percent_change: opt_int(self.percent_change),
        }
    }
}

/// The images of a sequence of records.
pub open spec fn records_view(s: Seq<EmploymentChange>) -> Seq<RecordView> {
    Seq::new(s.len(), |i: int| s[i]@)
}

/// A value in units rendered to one decimal place, rounded half away from
/// zero, with a minus sign exactly for negative input.
pub open spec fn dec1_str(units: int) -> Seq<char> {
    let t = round_div(abs(units) as int, 1000);
    let body = dec_str((t / 10) as nat) + seq!['.', digit_char(t % 10)];
    if units < 0 {
        seq!['-'] + body
    } else {
        body
    }
}

/// The sentinel rendering of an absent delta.
pub open spec fn na_str() -> Seq<char> {
    seq!['N', '/', 'A']
}

/// An absolute change rendered to one decimal place: absent becomes the
/// sentinel, a non-negative value gains a `+` prefix.
pub open spec fn format_change_spec(c: Option<int>) -> Seq<char> {
    match c {
        None => na_str(),
        Some(v) => if v >= 0 {
            seq!['+'] + dec1_str(v)
        } else {
            dec1_str(v)
        },
    }
}

/// A percentage in hundredths rendered to two decimal places with a `%`
/// suffix: absent becomes the sentinel, a non-negative value gains a `+`
/// prefix.
pub open spec fn format_percent_spec(p: Option<int>) -> Seq<char> {
    match p {
        None => na_str(),
        Some(v) => {
            let m = abs(v) as int;
            let body = dec_str((m / 100) as nat) + seq![
                '.',
                digit_char((m / 10) % 10),
                digit_char(m % 10),
                '%',
            ];
            if v >= 0 {
                seq!['+'] + body
            } else {
                seq!['-'] + body
            }
        },
    }
}

/// Renders a value in units to one decimal place, as `dec1_str` describes.
pub fn format_value(v: i128) -> (r: String)
    requires
        -MAX_FORMAT <= v <= MAX_FORMAT,
    ensures
        r@ == dec1_str(v as int),
{
    let mut s = String::new();
    if v < 0 {
        s.append("-");
    }
    let m: u128 = if v < 0 {
        (-v) as u128
    } else {
        v as u128
    };
    let t = units_to_tenths(m);
    push_decimal(&mut s, t / 10);
    s.append(".");
    append_digit(&mut s, (t % 10) as u8);
    proof {
        reveal_strlit("-");
        reveal_strlit(".");
        assert(s@ =~= dec1_str(v as int));
    }
    s
}

/// Renders an optional absolute change, as `format_change_spec` describes.
pub fn format_change(change: Option<i128>) -> (r: String)
    requires
        change matches Some(v) ==> -MAX_FORMAT <= v <= MAX_FORMAT,
    ensures
        r@ == format_change_spec(opt_int(change)),
{
    match change {
        None => {
            let r = String::from_str("N/A");
            proof {
                reveal_strlit("N/A");
                assert(r@ =~= na_str());
            }
            r
        }
        Some(v) => {
            let body = format_value(v);
            if v >= 0 {
                let mut s = String::from_str("+");
                s.append(body.as_str());
                proof {
                    reveal_strlit("+");
                    assert(s@ =~= seq!['+'] + dec1_str(v as int));
                }
                s
            } else {
                body
            }
        }
    }
}

/// Renders an optional percentage change, as `format_percent_spec`
/// describes.
pub fn format_percent(percent: Option<i128>) -> (r: String)
    requires
        percent matches Some(v) ==> -MAX_FORMAT <= v <= MAX_FORMAT,
    ensures
        r@ == format_percent_spec(opt_int(percent)),
{
    match percent {
        None => {
            let r = String::from_str("N/A");
            proof {
                reveal_strlit("N/A");
                assert(r@ =~= na_str());
            }
            r
        }
        Some(v) => {
            let mut s = String::new();
            if v < 0 {
                s.append("-");
            } else {
                s.append("+");
            }
            let m: u128 = if v < 0 {
                (-v) as u128
            } else {
                v as u128
            };
            push_decimal(&mut s, m / 100);
            s.append(".");
            append_digit(&mut s, ((m / 10) % 10) as u8);
            append_digit(&mut s, (m % 10) as u8);
            s.append("%");
            proof {
                reveal_strlit("-");
                reveal_strlit("+");
                reveal_strlit(".");
                reveal_strlit("%");
                assert(s@ =~= format_percent_spec(opt_int(percent)));
            }
            s
        }
    }
}

/// A year token: exactly four digit characters, so that lexical order on
/// tokens agrees with numeric order on years.
pub open spec fn valid_year(y: Seq<char>) -> bool {
    y.len() == 4 && (forall|i: int| 0 <= i < 4 ==> is_digit(#[trigger] y[i]))
}

/// The number a year token denotes.
pub open spec fn year_num(y: Seq<char>) -> int {
    digits_val(y)
}

/// The number a period token denotes.
pub open spec fn period_num(p: Seq<char>) -> int {
    char_digit(p[1]) * 10 + char_digit(p[2])
}

/// A period token: `'M'` and two digits denoting 1 through 13, where 13 is
/// the annual aggregate.
pub open spec fn valid_period(p: Seq<char>) -> bool {
    &&& p.len() == 3
    &&& p[0] == 'M'
    &&& is_digit(p[1])
    &&& is_digit(p[2])
    &&& 1 <= period_num(p) <= 13
}

/// Both tokens of an observation are well shaped.
pub open spec fn valid_tokens(o: DataPointView) -> bool {
    valid_year(o.year) && valid_period(o.period)
}

/// An annual-aggregate row, excluded from month-over-month comparison.
pub open spec fn is_annual(o: DataPointView) -> bool {
    period_num(o.period) == 13
}

/// Chronological sort key of an observation with valid tokens.
pub open spec fn obs_key(o: DataPointView) -> int {
    year_num(o.year) * 100 + period_num(o.period)
}

/// Checks a year token's shape.
pub fn check_year(y: &str) -> (b: bool)
    ensures
        b == valid_year(y@),
{
    let n = y.unicode_len();
    if n != 4 {
        return false;
    }
    let mut i: usize = 0;
    while i < 4
        invariant
            0 <= i <= 4,
            y@.len() == 4,
            forall|k: int| 0 <= k < i ==> is_digit(#[trigger] y@[k]),
        decreases 4 - i,
    {
        let c = y.get_char(i);
        let x = c as u32;
        if !(48 <= x && x <= 57) {
            return false;
        }
        i = i + 1;
    }
    true
}

/// Checks a period token's shape.
pub fn check_period(p: &str) -> (b: bool)
    ensures
        b == valid_period(p@),
{
    let n = p.unicode_len();
    if n != 3 {
        return false;
    }
    if p.get_char(0) != 'M' {
        return false;
    }
    let c1 = p.get_char(1) as u32;
    let c2 = p.get_char(2) as u32;
    if !(48 <= c1 && c1 <= 57) || !(48 <= c2 && c2 <= 57) {
        return false;
    }
    let num = (c1 - 48) * 10 + (c2 - 48);
    1 <= num && num <= 13
}

/// Sort key of an observation whose tokens have been checked.
fn key_of(p: &BlsDataPoint) -> (k: u64)
    requires
        valid_tokens(p@),
    ensures
        k == obs_key(p@),
{
    let y = p.year.as_str();
    let d0 = (y.get_char(0) as u32 - 48) as u64;
    let d1 = (y.get_char(1) as u32 - 48) as u64;
    let d2 = (y.get_char(2) as u32 - 48) as u64;
    let d3 = (y.get_char(3) as u32 - 48) as u64;
    let yv = ((d0 * 10 + d1) * 10 + d2) * 10 + d3;
    proof {
        let ys = p.year@;
        assert(ys.drop_last() =~= ys.take(3));
        assert(ys.take(3).drop_last() =~= ys.take(2));
        assert(ys.take(2).drop_last() =~= ys.take(1));
        assert(ys.take(1).drop_last() =~= ys.take(0));
        assert(digits_val(ys.take(0)) == 0);
        assert(digits_val(ys.take(1)) == char_digit(ys[0]));
        assert(digits_val(ys.take(2)) == char_digit(ys[0]) * 10 + char_digit(ys[1]));
        assert(digits_val(ys) == digits_val(ys.take(3)) * 10 + char_digit(ys[3]));
    }
    let q = p.period.as_str();
    let p1 = (q.get_char(1) as u32 - 48) as u64;
    let p2 = (q.get_char(2) as u32 - 48) as u64;
    yv * 100 + (p1 * 10 + p2)
}

/// Index at which an observation with key `k` is placed in `s`: the first
/// index whose key is larger, so equal keys keep their arrival order.
pub open spec fn insert_pos(s: Seq<DataPointView>, k: int) -> int
    decreases s.len(),
{
    if s.len() == 0 {
        0
    } else if obs_key(s[0]) > k {
        0
    } else {
        1 + insert_pos(s.drop_first(), k)
    }
}

/// One observation placed into an already-sorted prefix.
pub open spec fn chrono_insert(s: Seq<DataPointView>, o: DataPointView) -> Seq<DataPointView> {
    s.insert(insert_pos(s, obs_key(o)), o)
}

/// The stable insertion sort of the observations by ascending key.
pub open spec fn chrono_sort(s: Seq<DataPointView>) -> Seq<DataPointView>
    decreases s.len(),
{
    if s.len() == 0 {
        s
    } else {
        chrono_insert(chrono_sort(s.drop_last()), s.last())
    }
}

proof fn lemma_insert_pos_scan(s: Seq<DataPointView>, k: int, pos: int)
    requires
        0 <= pos <= s.len(),
        forall|j: int| 0 <= j < pos ==> !(obs_key(#[trigger] s[j]) > k),
        pos < s.len() ==> obs_key(s[pos]) > k,
    ensures
        insert_pos(s, k) == pos,
    decreases s.len(),
{
    if pos > 0 {
        lemma_insert_pos_scan(s.drop_first(), k, pos - 1);
    }
}

/// Clones the observations into ascending chronological order; equal keys
/// keep their arrival order.
fn sort_points(data: &Vec<BlsDataPoint>) -> (out: Vec<BlsDataPoint>)
    requires
        forall|i: int|
            0 <= i < data@.len() ==> valid_tokens(#[trigger] points_view(data@)[i]),
    ensures
        points_view(out@) == chrono_sort(points_view(data@)),
        forall|i: int|
            0 <= i < out@.len() ==> valid_tokens(#[trigger] points_view(out@)[i]),
{
    let ghost dv: Seq<DataPointView> = points_view(data@);
    let mut out: Vec<BlsDataPoint> = Vec::new();
    let mut i: usize = 0;
    proof {
        assert(points_view(out@) =~= chrono_sort(dv.take(0)));
    }
    while i < data.len()
        invariant
            0 <= i <= data@.len(),
            dv == points_view(data@),
            forall|j: int| 0 <= j < data@.len() ==> valid_tokens(#[trigger] dv[j]),
            points_view(out@) == chrono_sort(dv.take(i as int)),
            forall|j: int|
                0 <= j < out@.len() ==> valid_tokens(#[trigger] points_view(out@)[j]),
        decreases data@.len() - i,
    {
        let x = data[i].duplicate();
        proof {
            assert(x@ == dv[i as int]);
        }
        let k = key_of(&x);
        let ghost sv: Seq<DataPointView> = points_view(out@);
        let mut pos: usize = 0;
        loop
            invariant_except_break
                0 <= pos <= out@.len(),
                sv == points_view(out@),
                forall|j: int| 0 <= j < out@.len() ==> valid_tokens(#[trigger] sv[j]),
                forall|j: int| 0 <= j < pos ==> !(obs_key(#[trigger] sv[j]) > k),
            ensures
                0 <= pos <= out@.len(),
                sv == points_view(out@),
                forall|j: int| 0 <= j < pos ==> !(obs_key(#[trigger] sv[j]) > k),
                pos < out@.len() ==> obs_key(sv[pos as int]) > k,
            decreases out@.len() - pos,
        {
            if pos == out.len() {
                break;
            }
            proof {
                assert(out@[pos as int]@ == sv[pos as int]);
            }
            let kp = key_of(&out[pos]);
            if kp > k {
                break;
            }
            pos = pos + 1;
        }
        proof {
            lemma_insert_pos_scan(sv, k as int, pos as int);
        }
        out.insert(pos, x);
        proof {
            assert(points_view(out@) =~= sv.insert(pos as int, dv[i as int]));
            assert(dv.take(i + 1).drop_last() =~= dv.take(i as int));
            assert(dv.take(i + 1).last() == dv[i as int]);
            assert(points_view(out@) == chrono_sort(dv.take(i + 1)));
        }
        i = i + 1;
    }
    proof {
        assert(dv.take(data@.len() as int) =~= dv);
    }
    out
}

/// The monthly observations: annual-aggregate rows removed, order kept.
pub open spec fn monthly(s: Seq<DataPointView>) -> Seq<DataPointView>
    decreases s.len(),
{
    if s.len() == 0 {
        s
    } else if is_annual(s.last()) {
        monthly(s.drop_last())
    } else {
        monthly(s.drop_last()).push(s.last())
    }
}

/// Every observation's value parses as a decimal number.
pub open spec fn all_values_ok(ms: Seq<DataPointView>) -> bool {
    forall|i: int| 0 <= i < ms.len() ==> parse_fixed_spec((#[trigger] ms[i]).value) is Some
}

/// Index of the first observation whose value does not parse.
pub open spec fn first_bad(ms: Seq<DataPointView>) -> int
    decreases ms.len(),
{
    if ms.len() == 0 {
        0
    } else if parse_fixed_spec(ms[0].value) is None {
        0
    } else {
        1 + first_bad(ms.drop_first())
    }
}

/// The parsed value of observation `i`, in units.
pub open spec fn value_at(ms: Seq<DataPointView>, i: int) -> int {
    parse_fixed_spec(ms[i].value)->Some_0
}

/// The derived record of observation `i` of the monthly sequence: its value,
/// and its changes against observation `i - 1`; both changes are absent
/// exactly for the first record.
pub open spec fn record_at(ms: Seq<DataPointView>, i: int) -> RecordView {
    RecordView {
        year: ms[i].year,
        month: ms[i].period_name,
        value: value_at(ms, i),
        change: if i == 0 {
            None
        } else {
            Some(value_at(ms, i) - value_at(ms, i - 1))
        },
        percent_change: if i == 0 {
            None
        } else {
            Some(percent_hundredths(value_at(ms, i) - value_at(ms, i - 1), value_at(ms, i - 1)))
        },
    }
}

/// One record per monthly observation, in chronological order.
pub open spec fn records_of(ms: Seq<DataPointView>) -> Seq<RecordView> {
    Seq::new(ms.len(), |i: int| record_at(ms, i))
}

/// Every observation's tokens are well shaped.
pub open spec fn all_tokens_valid(data: Seq<DataPointView>) -> bool {
    forall|i: int| 0 <= i < data.len() ==> valid_tokens(#[trigger] data[i])
}

/// Index of the first observation with a malformed token.
pub open spec fn first_bad_token(data: Seq<DataPointView>) -> int
    decreases data.len(),
{
    if data.len() == 0 {
        0
    } else if !valid_tokens(data[0]) {
        0
    } else {
        1 + first_bad_token(data.drop_first())
    }
}

/// The offending token of an observation: its year if that is malformed,
/// else its period.
pub open spec fn bad_token(o: DataPointView) -> Seq<char> {
    if !valid_year(o.year) {
        o.year
    } else {
        o.period
    }
}

/// What `calculate_changes` returns, as a function of the series image.
///
/// An empty series is the no-data error. A malformed year or period token
/// is rejected before sorting, since lexical order is chronological only
/// for well-shaped tokens. A series whose observations are all
/// annual-aggregate rows yields the empty record sequence — a success, not
/// an error, since observations existed and were merely filtered.
pub open spec fn compute_spec(s: SeriesView) -> Result<Seq<RecordView>, ErrorView> {
    if s.data.len() == 0 {
        Err(ErrorView::NoData(s.series_id))
    } else if !all_tokens_valid(s.data) {
        Err(ErrorView::InvalidInput(bad_token(s.data[first_bad_token(s.data)])))
    } else {
        let ms = monthly(chrono_sort(s.data));
        if !all_values_ok(ms) {
            Err(ErrorView::InvalidInput(ms[first_bad(ms)].value))
        } else {
            Ok(records_of(ms))
        }
    }
}

proof fn lemma_first_bad_token_at(data: Seq<DataPointView>, j: int)
    requires
        0 <= j < data.len(),
        forall|k: int| 0 <= k < j ==> valid_tokens(#[trigger] data[k]),
        !valid_tokens(data[j]),
    ensures
        first_bad_token(data) == j,
        !all_tokens_valid(data),
    decreases data.len(),
{
    if j > 0 {
        lemma_first_bad_token_at(data.drop_first(), j - 1);
    }
}

proof fn lemma_first_bad_at(ms: Seq<DataPointView>, j: int)
    requires
        0 <= j < ms.len(),
        forall|k: int| 0 <= k < j ==> parse_fixed_spec((#[trigger] ms[k]).value) is Some,
        parse_fixed_spec(ms[j].value) is None,
    ensures
        first_bad(ms) == j,
        !all_values_ok(ms),
    decreases ms.len(),
{
    if j > 0 {
        lemma_first_bad_at(ms.drop_first(), j - 1);
    }
}

/// The monthly sequence of a whole input is the monthly sequence of a
/// prefix followed by that of the rest.
proof fn lemma_monthly_split(s: Seq<DataPointView>, j: int)
    requires
        0 <= j <= s.len(),
    ensures
        monthly(s) =~= monthly(s.take(j)) + monthly(s.skip(j)),
    decreases s.len() - j,
{
    if j == s.len() {
        assert(s.take(j) =~= s);
        assert(monthly(s.skip(j)).len() == 0);
    } else {
        lemma_monthly_split(s.drop_last(), j);
        assert(s.drop_last().take(j) =~= s.take(j));
        assert(s.skip(j).drop_last() =~= s.drop_last().skip(j));
        assert(s.skip(j).last() == s.last());
        assert(s.skip(j).len() > 0);
    }
}

proof fn lemma_records_push(ms: Seq<DataPointView>, x: DataPointView)
    ensures
        records_of(ms.push(x)) =~= records_of(ms).push(
            record_at(ms.push(x), ms.len() as int),
        ),
{
    assert forall|i: int| 0 <= i < ms.len() implies record_at(ms.push(x), i) == record_at(
        ms,
        i,
    ) by {
        assert(ms.push(x)[i] == ms[i]);
        if i > 0 {
            assert(ms.push(x)[i - 1] == ms[i - 1]);
        }
    }
}

/// The numeric period of an observation whose tokens have been checked.
fn period_value(p: &BlsDataPoint) -> (v: u32)
    requires
        valid_period(p@.period),
    ensures
        v == period_num(p@.period),
{
    let q = p.period.as_str();
    (q.get_char(1) as u32 - 48) * 10 + (q.get_char(2) as u32 - 48)
}

/// Derives the chronological change records of one series, exactly as
/// `compute_spec` describes: validate the tokens, sort, drop annual rows,
/// parse each surviving value, and fold each against its predecessor.
#[verifier::rlimit(60)]
pub fn calculate_changes(series: &BlsSeries) -> (r: Result<Vec<EmploymentChange>, BlsError>)
    ensures
        match r {
            Ok(recs) => compute_spec(series@) == Ok::<Seq<RecordView>, ErrorView>(
                records_view(recs@),
            ),
            Err(e) => compute_spec(series@) == Err::<Seq<RecordView>, ErrorView>(e@),
        },
{
    let ghost sv: SeriesView = series@;
    let ghost dv: Seq<DataPointView> = sv.data;
    if series.data.len() == 0 {
        return Err(BlsError::NoData(series.series_id.clone()));
    }
    let mut i: usize = 0;
    while i < series.data.len()
        invariant
            0 <= i <= series.data@.len(),
            dv == points_view(series.data@),
            forall|k: int| 0 <= k < i ==> valid_tokens(#[trigger] dv[k]),
        decreases series.data@.len() - i,
    {
        let p = &series.data[i];
        proof {
            assert(p@ == dv[i as int]);
        }
        if !check_year(p.year.as_str()) {
            proof {
                lemma_first_bad_token_at(dv, i as int);
            }
            return Err(BlsError::InvalidInput(p.year.clone()));
        }
        if !check_period(p.period.as_str()) {
            proof {
                lemma_first_bad_token_at(dv, i as int);
            }
            return Err(BlsError::InvalidInput(p.period.clone()));
        }
        i = i + 1;
    }
    let sorted = sort_points(&series.data);
    let ghost sov: Seq<DataPointView> = points_view(sorted@);
    let ghost ms_full: Seq<DataPointView> = monthly(sov);
    let mut out: Vec<EmploymentChange> = Vec::new();
    let mut prev: Option<i128> = None;
    let mut j: usize = 0;
    proof {
        assert(sov.take(0) =~= Seq::<DataPointView>::empty());
        assert(records_view(out@) =~= records_of(monthly(sov.take(0))));
    }
    while j < sorted.len()
        invariant
            0 <= j <= sorted@.len(),
            sov == points_view(sorted@),
            ms_full == monthly(sov),
            sov == chrono_sort(dv),
            dv == points_view(series.data@),
            dv.len() > 0,
            all_tokens_valid(dv),
            forall|k: int| 0 <= k < sov.len() ==> valid_tokens(#[trigger] sov[k]),
            records_view(out@) == records_of(monthly(sov.take(j as int))),
            out@.len() == monthly(sov.take(j as int)).len(),
            all_values_ok(monthly(sov.take(j as int))),
            match prev {
                None => monthly(sov.take(j as int)).len() == 0,
                Some(pv) => {
                    let ms = monthly(sov.take(j as int));
                    &&& ms.len() > 0
                    &&& pv as int == value_at(ms, ms.len() - 1)
                    &&& -MAX_UNITS < pv < MAX_UNITS
                },
            },
        decreases sorted@.len() - j,
    {
        let ghost ms_j: Seq<DataPointView> = monthly(sov.take(j as int));
        let p = &sorted[j];
        proof {
            assert(p@ == sov[j as int]);
            assert(sov.take(j + 1).drop_last() =~= sov.take(j as int));
            assert(sov.take(j + 1).last() == sov[j as int]);
        }
        let pn = period_value(p);
        if pn != 13 {
            let ghost ms_new: Seq<DataPointView> = ms_j.push(sov[j as int]);
            proof {
                assert(monthly(sov.take(j + 1)) == ms_new);
            }
            match parse_fixed(p.value.as_str()) {
                None => {
                    proof {
                        lemma_monthly_split(sov, j + 1);
                        assert(ms_full == ms_new + monthly(sov.skip(j + 1)));
                        assert forall|k: int| 0 <= k < ms_j.len() implies parse_fixed_spec(
                            (#[trigger] ms_full[k]).value,
                        ) is Some by {
                            assert(ms_full[k] == ms_j[k]);
                        }
                        assert(ms_full[ms_j.len() as int] == sov[j as int]);
                        lemma_first_bad_at(ms_full, ms_j.len() as int);
                    }
                    return Err(BlsError::InvalidInput(p.value.clone()));
                }
                Some(v) => {
                    proof {
                        lemma_parse_fixed_in_range(p.value@);
                    }
                    let (ch, pc): (Option<i128>, Option<i128>) = match prev {
                        Some(pv) => {
                            let c = v - pv;
                            let pct = percent_of(c, pv);
                            (Some(c), Some(pct))
                        }
                        None => (None, None),
                    };
                    let rec = EmploymentChange {
                        year: p.year.clone(),
                        month: p.period_name.clone(),
                        value: v,
                        change: ch,
                        percent_change: pc,
                    };
                    proof {
                        lemma_records_push(ms_j, sov[j as int]);
                        assert(rec@ == record_at(ms_new, ms_j.len() as int));
                    }
                    out.push(rec);
                    prev = Some(v);
                    proof {
                        assert(records_view(out@) =~= records_of(ms_new));
                        assert forall|k: int| 0 <= k < ms_new.len() implies parse_fixed_spec(
                            (#[trigger] ms_new[k]).value,
                        ) is Some by {
                            if k < ms_j.len() {
                                assert(ms_new[k] == ms_j[k]);
                            }
                        }
                    }
                }
            }
        } else {
            proof {
                assert(monthly(sov.take(j + 1)) == ms_j);
            }
        }
        j = j + 1;
    }
    proof {
        assert(sov.take(sorted@.len() as int) =~= sov);
    }
    Ok(out)
}

/// The observations stand in non-decreasing key order.
pub open spec fn sorted_keys(s: Seq<DataPointView>) -> bool {
    forall|i: int, j: int|
        0 <= i < j < s.len() ==> obs_key(#[trigger] s[i]) <= obs_key(#[trigger] s[j])
}

/// No two observations share a (year, period) key.
pub open spec fn distinct_keys(s: Seq<DataPointView>) -> bool {
    forall|i: int, j: int|
        0 <= i < j < s.len() ==> obs_key(#[trigger] s[i]) != obs_key(#[trigger] s[j])
}

proof fn lemma_insert_pos_prefix(s: Seq<DataPointView>, k: int)
    ensures
        forall|j: int| 0 <= j < insert_pos(s, k) ==> obs_key(#[trigger] s[j]) <= k,
        insert_pos(s, k) < s.len() ==> obs_key(s[insert_pos(s, k)]) > k,
        0 <= insert_pos(s, k) <= s.len(),
    decreases s.len(),
{
    if s.len() > 0 && !(obs_key(s[0]) > k) {
        lemma_insert_pos_prefix(s.drop_first(), k);
        assert forall|j: int| 0 <= j < insert_pos(s, k) implies obs_key(#[trigger] s[j]) <= k by {
            if j > 0 {
                assert(s.drop_first()[j - 1] == s[j]);
            }
        }
    }
}

proof fn lemma_chrono_insert_sorted(s: Seq<DataPointView>, o: DataPointView)
    requires
        sorted_keys(s),
    ensures
        sorted_keys(chrono_insert(s, o)),
{
    let k = obs_key(o);
    let pos = insert_pos(s, k);
    lemma_insert_pos_prefix(s, k);
    let t = chrono_insert(s, o);
    assert forall|i: int, j: int| 0 <= i < j < t.len() implies obs_key(#[trigger] t[i]) <= obs_key(
        #[trigger] t[j],
    ) by {
        if i < pos {
            assert(t[i] == s[i]);
        } else if i == pos {
            assert(t[i] == o);
        } else {
            assert(t[i] == s[i - 1]);
        }
        if j < pos {
            assert(t[j] == s[j]);
        } else if j == pos {
            assert(t[j] == o);
        } else {
            assert(t[j] == s[j - 1]);
        }
        if i < pos && j == pos {
        } else if i == pos && j > pos {
            assert(obs_key(s[pos]) <= obs_key(s[j - 1]) || pos == j - 1);
        }
    }
}

/// The chronological sort is sorted by key.
pub proof fn lemma_chrono_sort_sorted(s: Seq<DataPointView>)
    ensures
        sorted_keys(chrono_sort(s)),
    decreases s.len(),
{
    if s.len() > 0 {
        lemma_chrono_sort_sorted(s.drop_last());
        lemma_chrono_insert_sorted(chrono_sort(s.drop_last()), s.last());
    }
}

proof fn lemma_seq_insert_to_multiset(s: Seq<DataPointView>, i: int, a: DataPointView)
    requires
        0 <= i <= s.len(),
    ensures
        s.insert(i, a).to_multiset() =~= s.to_multiset().insert(a),
{
    broadcast use vstd::seq_lib::group_to_multiset_ensures;

    assert(s.insert(i, a) =~= s.take(i).push(a) + s.skip(i));
    vstd::seq_lib::lemma_multiset_commutative(s.take(i).push(a), s.skip(i));
    assert(s =~= s.take(i) + s.skip(i));
    vstd::seq_lib::lemma_multiset_commutative(s.take(i), s.skip(i));
    assert(s.take(i).push(a).to_multiset() =~= s.take(i).to_multiset().insert(a));
}

/// Sorting keeps exactly the observations given: the multiset of the
/// result is the multiset of the input.
pub proof fn lemma_chrono_sort_multiset(s: Seq<DataPointView>)
    ensures
        chrono_sort(s).to_multiset() =~= s.to_multiset(),
    decreases s.len(),
{
    broadcast use vstd::seq_lib::group_to_multiset_ensures;

    if s.len() > 0 {
        lemma_chrono_sort_multiset(s.drop_last());
        let sorted = chrono_sort(s.drop_last());
        lemma_insert_pos_prefix(sorted, obs_key(s.last()));
        lemma_seq_insert_to_multiset(sorted, insert_pos(sorted, obs_key(s.last())), s.last());
        assert(s =~= s.drop_last().push(s.last()));
        assert(s.drop_last().push(s.last()).to_multiset() =~= s.drop_last().to_multiset().insert(
            s.last(),
        ));
    }
}

proof fn lemma_sorted_identity(s: Seq<DataPointView>)
    requires
        sorted_keys(s),
    ensures
        chrono_sort(s) =~= s,
    decreases s.len(),
{
    if s.len() > 0 {
        assert(sorted_keys(s.drop_last())) by {
            assert(forall|i: int|
                0 <= i < s.len() - 1 ==> s.drop_last()[i] == #[trigger] s[i]);
        }
        lemma_sorted_identity(s.drop_last());
        let t = chrono_sort(s.drop_last());
        let k = obs_key(s.last());
        lemma_insert_pos_prefix(t, k);
        assert forall|j: int| 0 <= j < t.len() implies !(obs_key(#[trigger] t[j]) > k) by {
            assert(t[j] == s[j]);
        }
        lemma_insert_pos_scan(t, k, t.len() as int);
        assert(t.insert(t.len() as int, s.last()) =~= s);
    }
}

proof fn lemma_monthly_no_annual(s: Seq<DataPointView>)
    requires
        forall|i: int| 0 <= i < s.len() ==> !is_annual(#[trigger] s[i]),
    ensures
        monthly(s) =~= s,
    decreases s.len(),
{
    if s.len() > 0 {
        assert(forall|i: int| 0 <= i < s.len() - 1 ==> s.drop_last()[i] == #[trigger] s[i]);
        lemma_monthly_no_annual(s.drop_last());
    }
}

proof fn lemma_monthly_all_annual(s: Seq<DataPointView>)
    requires
        forall|i: int| 0 <= i < s.len() ==> is_annual(#[trigger] s[i]),
    ensures
        monthly(s).len() == 0,
    decreases s.len(),
{
    if s.len() > 0 {
        assert(forall|i: int| 0 <= i < s.len() - 1 ==> s.drop_last()[i] == #[trigger] s[i]);
        lemma_monthly_all_annual(s.drop_last());
    }
}

/// An observation of the sorted sequence is an observation of the input.
proof fn lemma_sorted_element_of(s: Seq<DataPointView>, i: int) -> (j: int)
    requires
        0 <= i < chrono_sort(s).len(),
    ensures
        0 <= j < s.len(),
        s[j] == chrono_sort(s)[i],
{
    broadcast use vstd::seq_lib::group_to_multiset_ensures;

    lemma_chrono_sort_multiset(s);
    let sorted = chrono_sort(s);
    assert(sorted.contains(sorted[i]));
    assert(sorted.to_multiset().count(sorted[i]) > 0);
    assert(s.contains(sorted[i]));
    choose|j: int| 0 <= j < s.len() && s[j] == sorted[i]
}

/// A non-empty series whose observations are already in chronological
/// order, with no annual-aggregate rows and with every value parseable,
/// computes to exactly one record per observation, in the same order: the
/// first record's deltas are absent, and every later record carries the
/// difference and percentage against the observation just before it.
pub proof fn lemma_ordered_series_records(s: SeriesView)
    requires
        s.data.len() > 0,
        all_tokens_valid(s.data),
        sorted_keys(s.data),
        forall|i: int| 0 <= i < s.data.len() ==> !is_annual(#[trigger] s.data[i]),
        forall|i: int|
            0 <= i < s.data.len() ==> parse_fixed_spec((#[trigger] s.data[i]).value) is Some,
    ensures
        compute_spec(s) is Ok,
        compute_spec(s)->Ok_0.len() == s.data.len(),
        forall|i: int|
            0 <= i < s.data.len() ==> (#[trigger] compute_spec(s)->Ok_0[i]) == record_at(
                s.data,
                i,
            ),
{
    lemma_sorted_identity(s.data);
    lemma_monthly_no_annual(s.data);
    assert(monthly(chrono_sort(s.data)) == s.data);
}

/// A non-empty series of well-shaped observations that are all
/// annual-aggregate rows computes to the empty record sequence: a success,
/// not an error, since observations existed and were merely filtered.
pub proof fn lemma_all_annual_yields_empty(s: SeriesView)
    requires
        s.data.len() > 0,
        all_tokens_valid(s.data),
        forall|i: int| 0 <= i < s.data.len() ==> is_annual(#[trigger] s.data[i]),
    ensures
        compute_spec(s) == Ok::<Seq<RecordView>, ErrorView>(Seq::<RecordView>::empty()),
{
    let sorted = chrono_sort(s.data);
    assert forall|i: int| 0 <= i < sorted.len() implies is_annual(#[trigger] sorted[i]) by {
        let j = lemma_sorted_element_of(s.data, i);
    }
    lemma_monthly_all_annual(sorted);
    assert(monthly(sorted) =~= Seq::<DataPointView>::empty());
    assert(records_of(monthly(sorted)) =~= Seq::<RecordView>::empty());
}

proof fn lemma_dup_count(s: Seq<DataPointView>, i: int, j: int)
    requires
        0 <= i < j < s.len(),
        s[i] == s[j],
    ensures
        s.to_multiset().count(s[i]) >= 2,
{
    broadcast use vstd::seq_lib::group_to_multiset_ensures;

    assert(s =~= s.take(j) + s.skip(j));
    vstd::seq_lib::lemma_multiset_commutative(s.take(j), s.skip(j));
    assert(s.take(j)[i] == s[i]);
    assert(s.take(j).contains(s[i]));
    assert(s.take(j).to_multiset().count(s[i]) > 0);
    assert(s.skip(j)[0] == s[j]);
    assert(s.skip(j).contains(s[j]));
    assert(s.skip(j).to_multiset().count(s[j]) > 0);
}

/// Two sequences sorted by key that hold the same observations, with no key
/// repeated, are the same sequence.
proof fn lemma_sorted_multiset_unique(a: Seq<DataPointView>, b: Seq<DataPointView>)
    requires
        sorted_keys(a),
        sorted_keys(b),
        a.to_multiset() =~= b.to_multiset(),
        distinct_keys(a),
    ensures
        a =~= b,
    decreases a.len(),
{
    broadcast use vstd::seq_lib::group_to_multiset_ensures;

    assert(a.len() == a.to_multiset().len());
    assert(b.len() == b.to_multiset().len());
    if a.len() > 0 {
        assert(a.contains(a[0]));
        assert(b.to_multiset().count(a[0]) > 0);
        assert(b.contains(a[0]));
        let bi = choose|i: int| 0 <= i < b.len() && b[i] == a[0];
        assert(b.contains(b[0]));
        assert(a.to_multiset().count(b[0]) > 0);
        assert(a.contains(b[0]));
        let am = choose|m: int| 0 <= m < a.len() && a[m] == b[0];
        assert(obs_key(b[0]) <= obs_key(b[bi]));
        assert(obs_key(a[0]) <= obs_key(a[am]));
        assert(obs_key(a[0]) == obs_key(b[0]));
        assert(am == 0);
        assert(a[0] == b[0]);
        assert(a.remove(0) =~= a.drop_first());
        assert(b.remove(0) =~= b.drop_first());
        assert(a.drop_first().to_multiset() =~= a.to_multiset().remove(a[0]));
        assert(b.drop_first().to_multiset() =~= b.to_multiset().remove(b[0]));
        assert(forall|i: int| 0 <= i < a.len() - 1 ==> a.drop_first()[i] == #[trigger] a[i + 1]);
        assert(forall|i: int| 0 <= i < b.len() - 1 ==> b.drop_first()[i] == #[trigger] b[i + 1]);
        lemma_sorted_multiset_unique(a.drop_first(), b.drop_first());
        assert forall|i: int| 0 <= i < a.len() implies a[i] == b[i] by {
            if i > 0 {
                assert(a.drop_first() == b.drop_first());
                assert(a[i] == a.drop_first()[i - 1]);
                assert(b[i] == b.drop_first()[i - 1]);
            }
        }
    }
}

/// Reordering the observations of a series before computing never changes
/// the result, as long as the tokens are well shaped and no two
/// observations share a (year, period) key: the sort is total, so any
/// arrival order leads to the same chronological sequence.
pub proof fn lemma_compute_insensitive_to_order(s1: SeriesView, s2: SeriesView)
    requires
        s1.series_id == s2.series_id,
        s1.data.to_multiset() =~= s2.data.to_multiset(),
        all_tokens_valid(s1.data),
        distinct_keys(s1.data),
    ensures
        compute_spec(s1) == compute_spec(s2),
{
    broadcast use vstd::seq_lib::group_to_multiset_ensures;

    assert(s1.data.len() == s1.data.to_multiset().len());
    assert(s2.data.len() == s2.data.to_multiset().len());
    if s1.data.len() == 0 {
    } else {
        assert forall|i: int| 0 <= i < s2.data.len() implies valid_tokens(
            #[trigger] s2.data[i],
        ) by {
            assert(s2.data.contains(s2.data[i]));
            assert(s1.data.to_multiset().count(s2.data[i]) > 0);
            assert(s1.data.contains(s2.data[i]));
            let j = choose|j: int| 0 <= j < s1.data.len() && s1.data[j] == s2.data[i];
            assert(valid_tokens(s1.data[j]));
        }
        let t1 = chrono_sort(s1.data);
        let t2 = chrono_sort(s2.data);
        lemma_chrono_sort_sorted(s1.data);
        lemma_chrono_sort_sorted(s2.data);
        lemma_chrono_sort_multiset(s1.data);
        lemma_chrono_sort_multiset(s2.data);
        assert(s1.data.no_duplicates()) by {
            assert forall|i: int, j: int|
                0 <= i < s1.data.len() && 0 <= j < s1.data.len() && i != j implies s1.data[i]
                != s1.data[j] by {
                if s1.data[i] == s1.data[j] {
                    assert(obs_key(s1.data[i]) == obs_key(s1.data[j]));
                }
            }
        }
        s1.data.lemma_multiset_has_no_duplicates();
        assert(distinct_keys(t1)) by {
            assert forall|i: int, j: int|
                0 <= i < j < t1.len() implies obs_key(#[trigger] t1[i]) != obs_key(
                #[trigger] t1[j],
            ) by {
                if obs_key(t1[i]) == obs_key(t1[j]) {
                    let j1 = lemma_sorted_element_of(s1.data, i);
                    let j2 = lemma_sorted_element_of(s1.data, j);
                    if j1 == j2 {
                        lemma_dup_count(t1, i, j);
                        assert(t1.to_multiset().count(t1[i]) >= 2);
                        assert(s1.data.to_multiset().count(t1[i]) >= 2);
                        assert(s1.data.contains(t1[i]));
                    } else {
                        assert(obs_key(s1.data[j1]) != obs_key(s1.data[j2]));
                    }
                }
            }
        }
        lemma_sorted_multiset_unique(t1, t2);
        assert(t1 == t2);
    }
}

} // verus!
