use name_graph::record::NameData;

fn row(fields: &[&str]) -> Vec<String> {
    fields.iter().map(|f| f.to_string()).collect()
}

#[test]
fn parse_round_trip() {
    let fields = row(&["2020", "M", "A", "Al", "10", "1"]);
    let nd = NameData::from_record(&fields).expect("a valid row parses");
    assert_eq!(nd.year, 2020);
    assert_eq!(nd.gender, "M");
    assert_eq!(nd.ethnicity, "A");
    assert_eq!(nd.name, "Al");
    assert_eq!(nd.count, 10);
    assert_eq!(nd.rank, 1);
}

#[test]
fn parse_keeps_text_fields_unchanged() {
    let fields = row(&["2011", " hispanic ", "WHITE NON HISP", "GERALDINE", "13", "75"]);
    let nd = NameData::from_record(&fields).expect("a valid row parses");
    assert_eq!(nd.gender, " hispanic ");
    assert_eq!(nd.ethnicity, "WHITE NON HISP");
    assert_eq!(nd.name, "GERALDINE");
}

#[test]
fn parse_accepts_leading_plus() {
    let fields = row(&["+2020", "F", "B", "Ana", "+7", "+3"]);
    let nd = NameData::from_record(&fields).expect("a plus-signed numeral parses");
    assert_eq!(nd.year, 2020);
    assert_eq!(nd.count, 7);
    assert_eq!(nd.rank, 3);
}

#[test]
fn parse_rejects_five_fields() {
    let fields = row(&["2020", "M", "A", "Al", "10"]);
    assert!(NameData::from_record(&fields).is_none());
}

#[test]
fn parse_rejects_seven_fields() {
    let fields = row(&["2020", "M", "A", "Al", "10", "1", "x"]);
    assert!(NameData::from_record(&fields).is_none());
}

#[test]
fn parse_rejects_bad_year() {
    let fields = row(&["20x0", "M", "A", "Al", "10", "1"]);
    assert!(NameData::from_record(&fields).is_none());
}

#[test]
fn parse_rejects_negative_count() {
    let fields = row(&["2020", "M", "A", "Al", "-10", "1"]);
    assert!(NameData::from_record(&fields).is_none());
}

#[test]
fn parse_rejects_empty_rank() {
    let fields = row(&["2020", "M", "A", "Al", "10", ""]);
    assert!(NameData::from_record(&fields).is_none());
}

#[test]
fn parse_rejects_bare_sign() {
    let fields = row(&["+", "M", "A", "Al", "10", "1"]);
    assert!(NameData::from_record(&fields).is_none());
}

#[test]
fn parse_rejects_overflowing_numeral() {
    let fields = row(&["2020", "M", "A", "Al", "4294967296", "1"]);
    assert!(NameData::from_record(&fields).is_none());
}

#[test]
fn parse_accepts_largest_numeral() {
    let fields = row(&["2020", "M", "A", "Al", "4294967295", "1"]);
    let nd = NameData::from_record(&fields).expect("u32::MAX fits");
    assert_eq!(nd.count, u32::MAX);
}

#[test]
fn parse_rejects_fractional_numeral() {
    let fields = row(&["2020.0", "M", "A", "Al", "10", "1"]);
    assert!(NameData::from_record(&fields).is_none());
}

#[test]
fn parse_rejects_padded_numeral() {
    let fields = row(&[" 2020", "M", "A", "Al", "10", "1"]);
    assert!(NameData::from_record(&fields).is_none());
}
