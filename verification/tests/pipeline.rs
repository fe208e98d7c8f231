use blsnumbers::analysis::{calculate_changes, format_change, format_percent, format_value};
use blsnumbers::api::{build_request, classify_response, str_eq, BlsDataPoint, BlsResponse, BlsSeries};
use blsnumbers::cli::{Cli, OutputFormat};
use blsnumbers::error::BlsError;
use blsnumbers::render::{records_in_range, render_table};

fn dp(year: &str, period: &str, period_name: &str, value: &str) -> BlsDataPoint {
    BlsDataPoint {
        year: year.to_string(),
        period: period.to_string(),
        period_name: period_name.to_string(),
        value: value.to_string(),
    }
}

fn series(id: &str, data: Vec<BlsDataPoint>) -> BlsSeries {
    BlsSeries { series_id: id.to_string(), data }
}

#[test]
fn format_change_none_is_sentinel() {
    assert_eq!(format_change(None), "N/A");
}

#[test]
fn format_change_positive_has_plus() {
    // 5.0 in ten-thousandths of a unit
    assert_eq!(format_change(Some(50_000)), "+5.0");
}

#[test]
fn format_change_negative_rounds_half_away() {
    // -3.25 rounds to -3.3, half away from zero
    assert_eq!(format_change(Some(-32_500)), "-3.3");
}

#[test]
fn format_change_zero_has_plus() {
    assert_eq!(format_change(Some(0)), "+0.0");
}

#[test]
fn format_percent_none_is_sentinel() {
    assert_eq!(format_percent(None), "N/A");
}

#[test]
fn format_percent_zero() {
    assert_eq!(format_percent(Some(0)), "+0.00%");
}

#[test]
fn format_percent_exact_values() {
    // hundredths of a percent
    assert_eq!(format_percent(Some(523)), "+5.23%");
    assert_eq!(format_percent(Some(-40)), "-0.40%");
    assert_eq!(format_percent(Some(12_345)), "+123.45%");
}

#[test]
fn format_value_plain() {
    assert_eq!(format_value(1_053_000), "105.3");
    assert_eq!(format_value(-1_053_000), "-105.3");
    assert_eq!(format_value(0), "0.0");
}

#[test]
fn compute_end_to_end_with_annual_row() {
    let s = series(
        "CES0000000001",
        vec![
            dp("2022", "M01", "January", "100"),
            dp("2022", "M02", "February", "105"),
            dp("2022", "M13", "Annual", "1260"),
        ],
    );
    let recs = calculate_changes(&s).unwrap();
    assert_eq!(recs.len(), 2);
    assert_eq!(recs[0].year, "2022");
    assert_eq!(recs[0].month, "January");
    assert_eq!(recs[0].value, 1_000_000);
    assert!(recs[0].change.is_none());
    assert!(recs[0].percent_change.is_none());
    assert_eq!(recs[1].month, "February");
    assert_eq!(recs[1].value, 1_050_000);
    assert_eq!(recs[1].change, Some(50_000));
    // 5% in hundredths of a percent
    assert_eq!(recs[1].percent_change, Some(500));
}

#[test]
fn compute_sorts_unordered_observations() {
    let ordered = series(
        "S",
        vec![
            dp("2022", "M11", "November", "100"),
            dp("2022", "M12", "December", "101"),
            dp("2023", "M01", "January", "103.5"),
        ],
    );
    let shuffled = series(
        "S",
        vec![
            dp("2023", "M01", "January", "103.5"),
            dp("2022", "M11", "November", "100"),
            dp("2022", "M12", "December", "101"),
        ],
    );
    let a = calculate_changes(&ordered).unwrap();
    let b = calculate_changes(&shuffled).unwrap();
    assert_eq!(a.len(), 3);
    assert_eq!(b.len(), 3);
    for (x, y) in a.iter().zip(b.iter()) {
        assert_eq!(x.year, y.year);
        assert_eq!(x.month, y.month);
        assert_eq!(x.value, y.value);
        assert_eq!(x.change, y.change);
        assert_eq!(x.percent_change, y.percent_change);
    }
    assert_eq!(a[0].month, "November");
    assert_eq!(a[2].month, "January");
    assert_eq!(a[2].change, Some(25_000));
}

#[test]
fn compute_empty_series_is_no_data() {
    let s = series("EMPTY01", vec![]);
    match calculate_changes(&s) {
        Err(BlsError::NoData(id)) => assert_eq!(id, "EMPTY01"),
        _ => panic!("expected the no-data error"),
    }
}

#[test]
fn compute_all_annual_rows_is_empty_success() {
    let s = series(
        "S",
        vec![dp("2022", "M13", "Annual", "1260"), dp("2023", "M13", "Annual", "1300")],
    );
    let recs = calculate_changes(&s).unwrap();
    assert!(recs.is_empty());
}

#[test]
fn compute_malformed_value_is_invalid_input() {
    let s = series(
        "S",
        vec![dp("2022", "M01", "January", "abc"), dp("2022", "M02", "February", "105")],
    );
    match calculate_changes(&s) {
        Err(BlsError::InvalidInput(raw)) => assert_eq!(raw, "abc"),
        _ => panic!("expected the invalid-input error"),
    }
}

#[test]
fn compute_malformed_value_on_annual_row_is_ignored() {
    // the annual row is filtered before values are parsed
    let s = series(
        "S",
        vec![dp("2022", "M13", "Annual", "abc"), dp("2022", "M01", "January", "100")],
    );
    let recs = calculate_changes(&s).unwrap();
    assert_eq!(recs.len(), 1);
    assert_eq!(recs[0].value, 1_000_000);
}

#[test]
fn compute_malformed_year_token_is_invalid_input() {
    let s = series("S", vec![dp("20x2", "M01", "January", "100")]);
    match calculate_changes(&s) {
        Err(BlsError::InvalidInput(raw)) => assert_eq!(raw, "20x2"),
        _ => panic!("expected the invalid-input error"),
    }
}

#[test]
fn compute_malformed_period_token_is_invalid_input() {
    let s = series("S", vec![dp("2022", "M14", "Mystery", "100")]);
    match calculate_changes(&s) {
        Err(BlsError::InvalidInput(raw)) => assert_eq!(raw, "M14"),
        _ => panic!("expected the invalid-input error"),
    }
}

#[test]
fn compute_zero_previous_value_gives_zero_percent() {
    let s = series(
        "S",
        vec![dp("2022", "M01", "January", "0"), dp("2022", "M02", "February", "5")],
    );
    let recs = calculate_changes(&s).unwrap();
    assert_eq!(recs[1].change, Some(50_000));
    assert_eq!(recs[1].percent_change, Some(0));
    assert_eq!(format_percent(recs[1].percent_change), "+0.00%");
}

#[test]
fn compute_negative_change_and_percent() {
    let s = series(
        "S",
        vec![dp("2022", "M01", "January", "200"), dp("2022", "M02", "February", "190")],
    );
    let recs = calculate_changes(&s).unwrap();
    assert_eq!(recs[1].change, Some(-100_000));
    // -5% in hundredths
    assert_eq!(recs[1].percent_change, Some(-500));
    assert_eq!(format_change(recs[1].change), "-10.0");
    assert_eq!(format_percent(recs[1].percent_change), "-5.00%");
}

#[test]
fn compute_percent_rounds_half_away_from_zero() {
    // change 1 against previous 800: 0.125% rounds to 0.13%
    let s = series(
        "S",
        vec![dp("2022", "M01", "January", "800"), dp("2022", "M02", "February", "801")],
    );
    let recs = calculate_changes(&s).unwrap();
    assert_eq!(recs[1].percent_change, Some(13));
    assert_eq!(format_percent(recs[1].percent_change), "+0.13%");
}

#[test]
fn render_table_matches_fixed_width_layout() {
    let s = series(
        "S",
        vec![
            dp("2022", "M01", "January", "100"),
            dp("2022", "M02", "February", "105.3"),
        ],
    );
    let recs = calculate_changes(&s).unwrap();
    assert!(records_in_range(&recs));
    let table = render_table(&recs);
    let header = format!(
        "{:<12} {:<15} {:>15} {:>15} {:>15}",
        "Year", "Month", "Employment (K)", "Change (K)", "% Change"
    );
    let row1 = format!(
        "{:<12} {:<15} {:>15} {:>15} {:>15}",
        "2022", "January", "100.0", "N/A", "N/A"
    );
    let row2 = format!(
        "{:<12} {:<15} {:>15} {:>15} {:>15}",
        "2022", "February", "105.3", "+5.3", "+5.30%"
    );
    let expected = format!("{}\n{}\n{}\n{}\n", header, "-".repeat(80), row1, row2);
    assert_eq!(table, expected);
}

#[test]
fn build_request_carries_configuration() {
    let r = build_request(
        vec!["CES6054150001".to_string()],
        2022,
        2024,
        Some("k".to_string()),
    );
    assert_eq!(r.seriesid, vec!["CES6054150001".to_string()]);
    assert_eq!(r.startyear, "2022");
    assert_eq!(r.endyear, "2024");
    assert_eq!(r.registrationkey, Some("k".to_string()));
    assert_eq!(r.calculations, Some(false));
}

#[test]
fn classify_response_accepts_success_status() {
    let resp = BlsResponse {
        status: "REQUEST_SUCCEEDED".to_string(),
        message: vec![],
        results: None,
    };
    assert!(classify_response(resp).is_ok());
}

#[test]
fn classify_response_joins_failure_messages() {
    let resp = BlsResponse {
        status: "REQUEST_NOT_PROCESSED".to_string(),
        message: vec!["first".to_string(), "second".to_string()],
        results: None,
    };
    match classify_response(resp) {
        Err(BlsError::Api(m)) => assert_eq!(m, "first; second"),
        _ => panic!("expected the upstream error"),
    }
}

#[test]
fn error_messages_are_descriptive() {
    assert_eq!(
        BlsError::Api("boom".to_string()).message(),
        "BLS API error: boom"
    );
    assert_eq!(
        BlsError::InvalidInput("abc".to_string()).message(),
        "Invalid input: abc"
    );
    assert_eq!(
        BlsError::NoData("S1".to_string()).message(),
        "No data returned for series S1"
    );
}

#[test]
fn str_eq_compares_by_characters() {
    assert!(str_eq("REQUEST_SUCCEEDED", "REQUEST_SUCCEEDED"));
    assert!(!str_eq("REQUEST_SUCCEEDED", "REQUEST_FAILED"));
    assert!(!str_eq("a", "ab"));
}

#[test]
fn cli_defaults_match_documented_values() {
    let c = Cli::default();
    assert_eq!(c.series, vec!["CES6054150001".to_string()]);
    assert_eq!(c.start_year, 2022);
    assert_eq!(c.end_year, 2024);
    assert!(c.api_key.is_none());
    assert!(matches!(c.format, OutputFormat::Table));
}

#[test]
fn annual_row_between_months_is_not_previous() {
    // the 2022 annual row sorts between December and January but must not
    // feed the January comparison
    let s = series(
        "S",
        vec![
            dp("2023", "M01", "January", "110"),
            dp("2022", "M13", "Annual", "1260"),
            dp("2022", "M12", "December", "100"),
        ],
    );
    let recs = calculate_changes(&s).unwrap();
    assert_eq!(recs.len(), 2);
    assert_eq!(recs[0].month, "December");
    assert_eq!(recs[1].month, "January");
    assert_eq!(recs[1].change, Some(100_000));
    assert_eq!(recs[1].percent_change, Some(1_000));
}

#[test]
fn compute_period_zero_is_invalid() {
    let s = series("S", vec![dp("2022", "M00", "Nothing", "100")]);
    match calculate_changes(&s) {
        Err(BlsError::InvalidInput(raw)) => assert_eq!(raw, "M00"),
        _ => panic!("expected the invalid-input error"),
    }
}

#[test]
fn classify_response_single_message_has_no_separator() {
    let resp = BlsResponse {
        status: "REQUEST_NOT_PROCESSED".to_string(),
        message: vec!["only".to_string()],
        results: None,
    };
    match classify_response(resp) {
        Err(BlsError::Api(m)) => assert_eq!(m, "only"),
        _ => panic!("expected the upstream error"),
    }
}

#[test]
fn parse_accepts_fraction_digits() {
    let s = series("S", vec![dp("2022", "M01", "January", "-2.5")]);
    let recs = calculate_changes(&s).unwrap();
    assert_eq!(recs[0].value, -25_000);
}

#[test]
fn parse_rejects_stray_text() {
    for bad in ["", ".", "1.", "1..2", "1.23456", "--1", "1e5", " 1"] {
        let s = series("S", vec![dp("2022", "M01", "January", bad)]);
        match calculate_changes(&s) {
            Err(BlsError::InvalidInput(raw)) => assert_eq!(raw, bad),
            _ => panic!("expected the invalid-input error for {:?}", bad),
        }
    }
}
