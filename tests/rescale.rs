use bench_truncate::bench::{rescale_document, BenchmarkDocument, Measurement, ResultEntry};
use bench_truncate::cli::{paths_from_args, RunError};
use bench_truncate::decimal::Decimal;
use bench_truncate::literal::parse_number;

fn dec(text: &str) -> Decimal {
    parse_number(text.as_bytes()).expect("a JSON number literal")
}

fn text(d: &Decimal) -> String {
    String::from_utf8(d.to_text()).unwrap()
}

fn rescaled_text(literal: &str) -> String {
    text(&dec(literal).rescaled())
}

fn truncated_text(literal: &str) -> String {
    text(&dec(literal).truncated())
}

fn sample(elapsed: &str, base: u32) -> Measurement {
    Measurement {
        iterations: base,
        elapsed: dec(elapsed),
        pagefaults: base + 1,
        cpucycles: base + 2,
        contextswitches: base + 3,
        instructions: base + 4,
        branchinstructions: base + 5,
        branchmisses: base + 6,
    }
}

#[test]
fn single_measurement_scenario() {
    let mut doc = BenchmarkDocument {
        results: vec![ResultEntry {
            title: "T".to_string(),
            name: "N".to_string(),
            unit: "ns".to_string(),
            measurements: vec![Measurement {
                iterations: 1,
                elapsed: dec("0.0000012345678"),
                pagefaults: 0,
                cpucycles: 0,
                contextswitches: 0,
                instructions: 0,
                branchinstructions: 0,
                branchmisses: 0,
            }],
            median_elapsed: dec("0.0000012345678"),
        }],
    };
    assert!(doc.check_rescalable());
    rescale_document(&mut doc);
    let r = &doc.results[0];
    assert_eq!(text(&r.median_elapsed), "123.45678");
    assert_eq!(text(&r.measurements[0].elapsed), "123.45678");
    assert_eq!(r.title, "T");
    assert_eq!(r.name, "N");
    assert_eq!(r.unit, "ns");
    assert_eq!(r.measurements[0].iterations, 1);
}

#[test]
fn truncation_not_rounding() {
    assert_eq!(rescaled_text("0.000000019999999"), "1.99999");
}

#[test]
fn truncation_to_five_places() {
    assert_eq!(truncated_text("1.234567"), "1.23456");
    assert_eq!(truncated_text("-1.234567"), "-1.23456");
    assert_eq!(truncated_text("1.5"), "1.50000");
    assert_eq!(truncated_text("0.000009"), "0.00000");
    assert_eq!(truncated_text("12e3"), "12000.00000");
}

#[test]
fn truncation_is_idempotent() {
    for literal in ["1.234567", "-0.29", "7", "3.14159265e-2", "0"] {
        let once = dec(literal).truncated();
        let twice = once.truncated();
        assert_eq!(text(&once), text(&twice));
        assert_eq!(once.exponent, twice.exponent);
        assert_eq!(once.digits, twice.digits);
    }
}

#[test]
fn rescaling_exact_values() {
    assert_eq!(rescaled_text("2"), "200000000.00000");
    assert_eq!(rescaled_text("1.5E+2"), "15000000000.00000");
    assert_eq!(rescaled_text("1e-20"), "0.00000");
    assert_eq!(rescaled_text("-1e-20"), "-0.00000");
    assert_eq!(rescaled_text("-0.0000000123456789"), "-1.23456");
    assert_eq!(rescaled_text("1e-13"), "0.00001");
    assert_eq!(rescaled_text("12345678e-18"), "0.00123");
}

#[test]
fn parse_reads_literals() {
    let d = dec("-12.50e-3");
    assert!(d.negative);
    assert_eq!(d.digits, vec![1, 2, 5, 0]);
    assert_eq!(d.exponent, -5);
    let e = dec("0");
    assert!(!e.negative);
    assert_eq!(e.digits, vec![0]);
    assert_eq!(e.exponent, 0);
    assert_eq!(dec("7E+4").exponent, 4);
}

#[test]
fn parse_rejects_non_literals() {
    for bad in ["", "-", "01", "1.", ".5", "1e", "1e+", "+1", "1.2.3", "1 ", "abc", "--1", "1e1000001"] {
        assert!(parse_number(bad.as_bytes()).is_none(), "{}", bad);
    }
    assert!(parse_number("1e1000000".as_bytes()).is_some());
}

#[test]
fn text_of_whole_and_fractional_numbers() {
    assert_eq!(text(&dec("12e2")), "1200");
    assert_eq!(text(&dec("0.05")), "0.05");
    assert_eq!(text(&dec("-3.25")), "-3.25");
    let padded = Decimal { negative: false, digits: vec![0, 0, 4, 2], exponent: -1 };
    assert_eq!(text(&padded), "4.2");
}

#[test]
fn document_keeps_order_and_counters() {
    let mut doc = BenchmarkDocument {
        results: vec![
            ResultEntry {
                title: "first".to_string(),
                name: "a".to_string(),
                unit: "op".to_string(),
                measurements: vec![sample("0.00000001", 10), sample("0.00000002", 20)],
                median_elapsed: dec("0.000000015"),
            },
            ResultEntry {
                title: "second".to_string(),
                name: "b".to_string(),
                unit: "byte".to_string(),
                measurements: vec![],
                median_elapsed: dec("3"),
            },
        ],
    };
    rescale_document(&mut doc);
    assert_eq!(doc.results.len(), 2);
    assert_eq!(doc.results[0].title, "first");
    assert_eq!(doc.results[1].title, "second");
    assert_eq!(text(&doc.results[0].median_elapsed), "1.50000");
    assert_eq!(text(&doc.results[1].median_elapsed), "300000000.00000");
    let ms = &doc.results[0].measurements;
    assert_eq!(ms.len(), 2);
    assert_eq!(text(&ms[0].elapsed), "1.00000");
    assert_eq!(text(&ms[1].elapsed), "2.00000");
    assert_eq!(
        (ms[1].iterations, ms[1].pagefaults, ms[1].cpucycles, ms[1].contextswitches),
        (20, 21, 22, 23)
    );
    assert_eq!((ms[1].instructions, ms[1].branchinstructions, ms[1].branchmisses), (24, 25, 26));
    assert!(doc.results[1].measurements.is_empty());
}

#[test]
fn rescalable_checks() {
    assert!(dec("1.5").check_rescalable());
    let bad_digit = Decimal { negative: false, digits: vec![1, 12], exponent: 0 };
    assert!(!bad_digit.check_rescalable());
    let too_large = Decimal { negative: false, digits: vec![1], exponent: 4_000_000 };
    assert!(!too_large.check_rescalable());
    assert!(too_large.check_wf());
    assert!(!bad_digit.check_wf());
    let out_of_range = Decimal { negative: true, digits: vec![1], exponent: -4_000_001 };
    assert!(!out_of_range.check_wf());
}

#[test]
fn bad_argument_count_is_usage_error() {
    let none: Vec<String> = vec![];
    assert_eq!(paths_from_args(&none), Err(RunError::Usage));
    let one = vec!["prog".to_string(), "in.json".to_string()];
    assert_eq!(paths_from_args(&one), Err(RunError::Usage));
    let two = vec!["prog".to_string(), "in.json".to_string(), "out.json".to_string()];
    assert_eq!(paths_from_args(&two), Ok(("in.json".to_string(), "out.json".to_string())));
}

#[test]
fn written_number_reads_back() {
    for literal in ["0.0000012345678", "-3.25", "12e2", "0", "-0.000", "123.45678", "7E-3"] {
        let d = dec(literal);
        let written = text(&d);
        let again = dec(&written);
        assert_eq!(again.negative, d.negative);
        assert_eq!(text(&again), written);
        assert_eq!(text(&dec(&text(&again))), written);
        let r = d.rescaled();
        let r_again = dec(&text(&r));
        assert_eq!(text(&r_again.rescaled()), text(&r.rescaled()));
    }
    let d = dec("0.00120");
    let again = dec(&text(&d));
    assert_eq!(again.digits, vec![0, 0, 0, 1, 2, 0]);
    assert_eq!(again.exponent, -5);
}
