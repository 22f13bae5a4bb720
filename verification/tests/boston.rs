use boston_stats::errors::DataError;
use boston_stats::parse::{parse_row, parse_table};
use boston_stats::record::{BostonRecord, Field, FieldAccessor};
use boston_stats::stats::DatasetUtils;
use boston_stats::value::Value;

fn v(micros: i64) -> Value {
    Value { micros }
}

fn uniform(micros: i64) -> BostonRecord {
    BostonRecord {
        crim: v(micros),
        zn: v(micros),
        indus: v(micros),
        chas: v(micros),
        nox: v(micros),
        rm: v(micros),
        age: v(micros),
        dis: v(micros),
        rad: v(micros),
        tax: v(micros),
        ptratio: v(micros),
        b: v(micros),
        lstat: v(micros),
        medv: v(micros),
    }
}

fn crim_dataset(micros: &[i64]) -> Vec<BostonRecord> {
    micros
        .iter()
        .map(|&m| {
            let mut r = uniform(0);
            r.crim = v(m);
            r
        })
        .collect()
}

fn row(tokens: &[&str]) -> Vec<String> {
    tokens.iter().map(|t| t.to_string()).collect()
}

fn good_row() -> Vec<String> {
    row(&[
        "0.00632", "18", "2.31", "0", "0.538", "6.575", "65.2", "4.09", "1", "296", "15.3",
        "396.9", "4.98", "24",
    ])
}

#[test]
fn parse_accepts_plain_integers() {
    assert_eq!(Value::parse("3"), Some(Value::from_int(3)));
    assert_eq!(Value::parse("0"), Some(v(0)));
    assert_eq!(Value::parse("296"), Some(v(296_000_000)));
}

#[test]
fn parse_accepts_decimals() {
    assert_eq!(Value::parse("2.5"), Some(v(2_500_000)));
    assert_eq!(Value::parse("0.00632"), Some(v(6_320)));
    assert_eq!(Value::parse("396.9"), Some(v(396_900_000)));
    assert_eq!(Value::parse("0.000001"), Some(v(1)));
}

#[test]
fn parse_accepts_signs() {
    assert_eq!(Value::parse("-0.001"), Some(v(-1_000)));
    assert_eq!(Value::parse("+3"), Some(v(3_000_000)));
    assert_eq!(Value::parse("-12.75"), Some(v(-12_750_000)));
}

#[test]
fn parse_accepts_bare_dot_forms() {
    assert_eq!(Value::parse("1."), Some(v(1_000_000)));
    assert_eq!(Value::parse(".5"), Some(v(500_000)));
}

#[test]
fn parse_rejects_junk() {
    assert_eq!(Value::parse(""), None);
    assert_eq!(Value::parse("-"), None);
    assert_eq!(Value::parse("."), None);
    assert_eq!(Value::parse("abc"), None);
    assert_eq!(Value::parse("1.2.3"), None);
    assert_eq!(Value::parse("1e5"), None);
    assert_eq!(Value::parse("12a3"), None);
    assert_eq!(Value::parse(" 1"), None);
}

#[test]
fn parse_rejects_out_of_range_tokens() {
    // a thirteenth integral digit
    assert_eq!(Value::parse("1000000000000"), None);
    assert_eq!(Value::parse("999999999999"), Some(v(999_999_999_999_000_000)));
    // a seventh fractional digit
    assert_eq!(Value::parse("0.0000001"), None);
}

#[test]
fn field_lookup_knows_every_schema_name() {
    let names = [
        "crim", "zn", "indus", "chas", "nox", "rm", "age", "dis", "rad", "tax", "ptratio", "b",
        "lstat", "medv",
    ];
    for name in names {
        assert!(Field::from_name(name).is_some(), "missing field {name}");
    }
    assert_eq!(Field::from_name("medv"), Some(Field::Medv));
    assert_eq!(Field::from_name("MEDV"), None);
    assert_eq!(Field::from_name("unknown"), None);
}

#[test]
fn record_get_field_returns_the_scalar() {
    let mut r = uniform(0);
    r.nox = v(538_000);
    assert_eq!(r.get_field("nox"), Some(v(538_000)));
    assert_eq!(r.get_field("bogus"), None);
}

#[test]
fn column_length_matches_dataset_length() {
    let data = crim_dataset(&[1, 2, 3, 4, 5]);
    let col: Vec<Value> = data.get_field("crim").unwrap();
    assert_eq!(col.len(), data.len());
    let col: Vec<Value> = data.get_field("medv").unwrap();
    assert_eq!(col.len(), data.len());
}

#[test]
fn unknown_field_yields_empty_column() {
    let data = crim_dataset(&[1, 2, 3, 4, 5]);
    let col: Vec<Value> = data.get_field("nothere").unwrap();
    assert!(col.is_empty());
    let empty: Vec<BostonRecord> = Vec::new();
    let col: Vec<Value> = empty.get_field("nothere").unwrap();
    assert!(col.is_empty());
}

#[test]
fn column_preserves_row_order() {
    let data = crim_dataset(&[5_000_000, 1_000_000, 3_000_000]);
    let col: Vec<Value> = data.get_field("crim").unwrap();
    assert_eq!(col, vec![v(5_000_000), v(1_000_000), v(3_000_000)]);
}

#[test]
fn median_of_four_is_the_average_around_mid() {
    // sorted [1,2,3,4]: mid = 2, even, so (2 + 3) / 2 = 2.5
    let data = crim_dataset(&[1_000_000, 2_000_000, 3_000_000, 4_000_000]);
    assert_eq!(data.median("crim"), Ok(v(2_500_000)));
}

#[test]
fn median_of_three_is_the_mid_element() {
    // sorted [1,3,5]: mid = 1, odd, so index 1 = 3
    let data = crim_dataset(&[5_000_000, 1_000_000, 3_000_000]);
    assert_eq!(data.median("crim"), Ok(v(3_000_000)));
}

#[test]
fn median_follows_the_index_rule_not_the_textbook_rule() {
    // n = 2: mid = 1, odd, so the larger element, not the average
    let data = crim_dataset(&[1_000_000, 2_000_000]);
    assert_eq!(data.median("crim"), Ok(v(2_000_000)));
    // n = 5: mid = 2, even, so (s[1] + s[2]) / 2, not the middle element
    let data = crim_dataset(&[1_000_000, 2_000_000, 3_000_000, 4_000_000, 5_000_000]);
    assert_eq!(data.median("crim"), Ok(v(2_500_000)));
}

#[test]
fn median_ignores_row_order() {
    let a = crim_dataset(&[4_000_000, 1_000_000, 3_000_000, 2_000_000]);
    let b = crim_dataset(&[1_000_000, 2_000_000, 3_000_000, 4_000_000]);
    assert_eq!(a.median("crim"), b.median("crim"));
}

#[test]
fn median_fails_on_unknown_field_or_empty_dataset() {
    let data = crim_dataset(&[1_000_000, 2_000_000]);
    assert_eq!(data.median("bogus"), Err(DataError::FieldNotFoundOrEmpty));
    let empty: Vec<BostonRecord> = Vec::new();
    assert_eq!(empty.median("crim"), Err(DataError::FieldNotFoundOrEmpty));
}

#[test]
fn dich_labels_are_binary_and_one_per_row() {
    let data = crim_dataset(&[1_000_000, 2_000_000, 3_000_000, 4_000_000]);
    let labels = data.dich("crim", None).unwrap();
    assert_eq!(labels.len(), data.len());
    assert!(labels.iter().all(|&l| l == 0 || l == 1));
    assert_eq!(labels, vec![0, 0, 1, 1]);
}

#[test]
fn dich_sends_ties_to_the_low_bucket() {
    // median of sorted [1,2,3] by the index rule is 2 (mid = 1, odd)
    let data = crim_dataset(&[2_000_000, 1_000_000, 3_000_000]);
    assert_eq!(data.median("crim"), Ok(v(2_000_000)));
    let labels = data.dich("crim", None).unwrap();
    // the value equal to the median is labelled 0
    assert_eq!(labels, vec![0, 0, 1]);
}

#[test]
fn dich_override_matches_computed_median() {
    let data = crim_dataset(&[4_000_000, 1_000_000, 3_000_000, 2_000_000]);
    let m = data.median("crim").unwrap();
    let with_override = data.dich("crim", Some(&m)).unwrap();
    let computed = data.dich("crim", None).unwrap();
    assert_eq!(with_override, computed);
}

#[test]
fn dich_fails_on_an_empty_column_even_with_override() {
    // an unknown field yields an empty column, the declared failure,
    // whether or not a threshold was supplied
    let data = crim_dataset(&[1_000_000, 2_000_000]);
    assert_eq!(
        data.dich("bogus", Some(&v(0))),
        Err(DataError::FieldNotFoundOrEmpty)
    );
    assert_eq!(data.dich("bogus", None), Err(DataError::FieldNotFoundOrEmpty));
    // an empty dataset's column is empty for every valid name too
    let empty: Vec<BostonRecord> = Vec::new();
    assert_eq!(
        empty.dich("crim", Some(&v(0))),
        Err(DataError::FieldNotFoundOrEmpty)
    );
}

#[test]
fn parse_row_builds_the_record_in_schema_order() {
    let rec = parse_row(&good_row()).unwrap();
    assert_eq!(rec.crim, v(6_320));
    assert_eq!(rec.zn, v(18_000_000));
    assert_eq!(rec.indus, v(2_310_000));
    assert_eq!(rec.chas, v(0));
    assert_eq!(rec.nox, v(538_000));
    assert_eq!(rec.rm, v(6_575_000));
    assert_eq!(rec.age, v(65_200_000));
    assert_eq!(rec.dis, v(4_090_000));
    assert_eq!(rec.rad, v(1_000_000));
    assert_eq!(rec.tax, v(296_000_000));
    assert_eq!(rec.ptratio, v(15_300_000));
    assert_eq!(rec.b, v(396_900_000));
    assert_eq!(rec.lstat, v(4_980_000));
    assert_eq!(rec.medv, v(24_000_000));
}

#[test]
fn parse_row_rejects_wrong_token_counts() {
    let mut short = good_row();
    short.pop();
    assert_eq!(parse_row(&short), Err(DataError::SchemaMismatch));
    let mut long = good_row();
    long.push("1".to_string());
    assert_eq!(parse_row(&long), Err(DataError::SchemaMismatch));
    assert_eq!(parse_row(&Vec::new()), Err(DataError::SchemaMismatch));
}

#[test]
fn parse_row_reports_the_first_malformed_token() {
    let mut bad = good_row();
    bad[5] = "6.57x".to_string();
    assert_eq!(parse_row(&bad), Err(DataError::MalformedValue(5)));
    bad[2] = "".to_string();
    assert_eq!(parse_row(&bad), Err(DataError::MalformedValue(2)));
}

#[test]
fn parse_table_keeps_row_order() {
    let mut second = good_row();
    second[0] = "1.25".to_string();
    let table = vec![good_row(), second];
    let data = parse_table(&table).unwrap();
    assert_eq!(data.len(), 2);
    assert_eq!(data[0].crim, v(6_320));
    assert_eq!(data[1].crim, v(1_250_000));
}

#[test]
fn parse_table_fails_fast_on_the_first_bad_row() {
    let mut bad = good_row();
    bad[3] = "oops".to_string();
    let mut worse = good_row();
    worse.pop();
    // the first failing row's error is the table's error; later rows,
    // good or bad, contribute nothing
    let table = vec![good_row(), bad, worse, good_row()];
    assert_eq!(parse_table(&table), Err(DataError::MalformedValue(3)));
    let empty: Vec<Vec<String>> = Vec::new();
    assert_eq!(parse_table(&empty).unwrap(), Vec::new());
}

#[test]
fn parsed_table_feeds_the_statistics() {
    let rows: Vec<Vec<String>> = [["1"; 14], ["2"; 14], ["3"; 14], ["4"; 14]]
        .iter()
        .map(|r| row(r))
        .collect();
    let data = parse_table(&rows).unwrap();
    assert_eq!(data.median("rm"), Ok(v(2_500_000)));
    assert_eq!(data.dich("rm", None).unwrap(), vec![0, 0, 1, 1]);
}
