//! The request and response shapes of the statistics service, and the
//! verified parts of the fetch step: building a request from configuration
//! and classifying a decoded response.
//!
//! The network call itself and the JSON envelope are outside collaborators;
//! they hand these plain-value types in and out.

use crate::error::{BlsError, ErrorView};
use crate::numeric::{dec_str, decimal_string};
use vstd::prelude::*;
use vstd::string::{StrSliceExecFns, StringExecFns};

verus! {

/// One reported value for a specific year and period, as received.
pub struct BlsDataPoint {
    /// Four-digit year token, e.g. `"2024"`.
    pub year: String,
    /// Period code: `"M01"`..`"M12"` for months, `"M13"` for the annual
    /// aggregate.
    pub period: String,
    /// Human-readable period name, e.g. `"January"`.
    pub period_name: String,
    /// String-encoded decimal value.
    pub value: String,
}

/// Mathematical image of a [`BlsDataPoint`].
pub struct DataPointView {
    pub year: Seq<char>,
    pub period: Seq<char>,
    pub period_name: Seq<char>,
    pub value: Seq<char>,
}

impl View for BlsDataPoint {
    type V = DataPointView;

    open spec fn view(&self) -> DataPointView {
        DataPointView {
            year: self.year@,
            period: self.period@,
            period_name: self.period_name@,
            value: self.value@,
        }
    }
}

impl BlsDataPoint {
    /// A field-for-field copy.
    pub fn duplicate(&self) -> (r: BlsDataPoint)
        ensures
            r@ == self@,
    {
        BlsDataPoint {
            year: self.year.clone(),
            period: self.period.clone(),
            period_name: self.period_name.clone(),
            value: self.value.clone(),
        }
    }
}

/// The images of a sequence of data points.
pub open spec fn points_view(s: Seq<BlsDataPoint>) -> Seq<DataPointView> {
    Seq::new(s.len(), |i: int| s[i]@)
}

/// A named sequence of observations for one statistical indicator, in the
/// order received (not guaranteed chronological).
pub struct BlsSeries {
    pub series_id: String,
    pub data: Vec<BlsDataPoint>,
}

/// Mathematical image of a [`BlsSeries`].
pub struct SeriesView {
    pub series_id: Seq<char>,
    pub data: Seq<DataPointView>,
}

impl View for BlsSeries {
    type V = SeriesView;

    open spec fn view(&self) -> SeriesView {
        SeriesView { series_id: self.series_id@, data: points_view(self.data@) }
    }
}

/// The series collection of a successful response.
pub struct BlsResults {
    pub series: Vec<BlsSeries>,
}

/// A decoded response envelope.
pub struct BlsResponse {
    pub status: String,
    pub message: Vec<String>,
    pub results: Option<BlsResults>,
}

/// The body of a timeseries request.
pub struct BlsRequest {
    pub seriesid: Vec<String>,
    pub startyear: String,
    pub endyear: String,
    pub registrationkey: Option<String>,
    pub calculations: Option<bool>,
}

/// Builds the request body for the given configuration; the year tokens are
/// the decimal numerals of the year numbers.
pub fn build_request(
    series_ids: Vec<String>,
    start_year: u16,
    end_year: u16,
    api_key: Option<String>,
) -> (r: BlsRequest)
    ensures
        r.seriesid == series_ids,
        r.startyear@ == dec_str(start_year as nat),
        r.endyear@ == dec_str(end_year as nat),
        r.registrationkey == api_key,
        r.calculations == Some(false),
{
    BlsRequest {
        seriesid: series_ids,
        startyear: decimal_string(start_year as u128),
        endyear: decimal_string(end_year as u128),
        registrationkey: api_key,
        calculations: Some(false),
    }
}

/// The status token the service uses for a successful request.
pub open spec fn success_status() -> Seq<char> {
    "REQUEST_SUCCEEDED"@
}

/// The response messages joined with `"; "`.
pub open spec fn join_semi(msgs: Seq<Seq<char>>) -> Seq<char>
    decreases msgs.len(),
{
    if msgs.len() == 0 {
        Seq::empty()
    } else if msgs.len() == 1 {
        msgs[0]
    } else {
        join_semi(msgs.drop_last()) + "; "@ + msgs.last()
    }
}

/// The images of a sequence of strings.
pub open spec fn strings_view(v: Seq<String>) -> Seq<Seq<char>> {
    Seq::new(v.len(), |i: int| v[i]@)
}

/// Character-for-character string equality.
pub fn str_eq(a: &str, b: &str) -> (r: bool)
    ensures
        r == (a@ == b@),
{
    let n = a.unicode_len();
    if n != b.unicode_len() {
        return false;
    }
    let mut i: usize = 0;
    while i < n
        invariant
            0 <= i <= n,
            n == a@.len(),
            n == b@.len(),
            forall|k: int| 0 <= k < i ==> a@[k] == b@[k],
        decreases n - i,
    {
        if a.get_char(i) != b.get_char(i) {
            return false;
        }
        i = i + 1;
    }
    proof {
        assert(a@ =~= b@);
    }
    true
}

/// Joins the messages with `"; "`, as `join_semi` describes.
pub fn join_messages(msgs: &Vec<String>) -> (r: String)
    ensures
        r@ == join_semi(strings_view(msgs@)),
{
    let ghost all: Seq<Seq<char>> = strings_view(msgs@);
    let mut s = String::new();
    let mut i: usize = 0;
    while i < msgs.len()
        invariant
            0 <= i <= msgs.len(),
            all == strings_view(msgs@),
            s@ == join_semi(all.take(i as int)),
        decreases msgs.len() - i,
    {
        if i > 0 {
            s.append("; ");
        }
        s.append(msgs[i].as_str());
        proof {
            assert(all.take(i + 1).drop_last() =~= all.take(i as int));
            assert(all.take(i + 1).last() == all[i as int]);
            if i == 0 {
                assert(s@ =~= join_semi(all.take(1)));
            }
        }
        i = i + 1;
    }
    proof {
        assert(all.take(msgs@.len() as int) =~= all);
    }
    s
}

/// Accepts a response whose status is the success token and classifies any
/// other response as an upstream error carrying the joined messages.
pub fn classify_response(resp: BlsResponse) -> (r: Result<BlsResponse, BlsError>)
    ensures
        match r {
            Ok(out) => resp.status@ == success_status() && out == resp,
            Err(e) => resp.status@ != success_status() && e@ == ErrorView::Api(
                join_semi(strings_view(resp.message@)),
            ),
        },
{
    if str_eq(resp.status.as_str(), "REQUEST_SUCCEEDED") {
        Ok(resp)
    } else {
        let msg = join_messages(&resp.message);
        Err(BlsError::Api(msg))
    }
}

} // verus!
