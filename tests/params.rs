use epidemic::decimal::parse_decimal;
use epidemic::fixed::SCALE;
use epidemic::model::Model;
use epidemic::params::{Field, ParamError, Params};

fn tokens(items: &[&str]) -> Vec<String> {
    items.iter().map(|s| s.to_string()).collect()
}

#[test]
fn parse_decimal_reads_whole_and_fractional_values() {
    assert_eq!(parse_decimal("1000"), Some(1000 * SCALE));
    assert_eq!(parse_decimal("0.0005"), Some(500_000));
    assert_eq!(parse_decimal("+.5"), Some(500_000_000));
    assert_eq!(parse_decimal("5."), Some(5 * SCALE));
    assert_eq!(parse_decimal("0"), Some(0));
    assert_eq!(parse_decimal("0.1234567891"), Some(123_456_789));
    assert_eq!(parse_decimal("18446744073.709551615"), Some(u64::MAX));
}

#[test]
fn parse_decimal_rejects_malformed_or_out_of_range_text() {
    assert_eq!(parse_decimal(""), None);
    assert_eq!(parse_decimal("."), None);
    assert_eq!(parse_decimal("+"), None);
    assert_eq!(parse_decimal("-1"), None);
    assert_eq!(parse_decimal("abc"), None);
    assert_eq!(parse_decimal("1.2.3"), None);
    assert_eq!(parse_decimal("1.5x"), None);
    assert_eq!(parse_decimal(" 1"), None);
    assert_eq!(parse_decimal("18446744073.709551616"), None);
    assert_eq!(parse_decimal("18446744074"), None);
}

#[test]
fn parse_decimal_reads_exponents() {
    assert_eq!(parse_decimal("1e3"), Some(1000 * SCALE));
    assert_eq!(parse_decimal("2.5e-4"), Some(250_000));
    assert_eq!(parse_decimal("5E+2"), Some(500 * SCALE));
    assert_eq!(parse_decimal("+.5e1"), Some(5 * SCALE));
    assert_eq!(parse_decimal("5.e0"), Some(5 * SCALE));
    assert_eq!(parse_decimal("123456789e-9"), Some(123_456_789));
    assert_eq!(parse_decimal("1e-10"), Some(0));
    assert_eq!(parse_decimal("1.8446744073709551615e10"), Some(u64::MAX));
    assert_eq!(parse_decimal("1.8446744073709551616e10"), None);
    assert_eq!(parse_decimal("1e11"), None);
    assert_eq!(parse_decimal("0e999999999999999999999"), Some(0));
    assert_eq!(parse_decimal("1e999999999999999999999"), None);
    assert_eq!(parse_decimal("7e-999999999999999999999"), Some(0));
}

#[test]
fn parse_decimal_rejects_malformed_exponents() {
    for text in ["1e", "e3", "1e+", "1e-", "1e3.5", "1ee3", "1e3e2", ".e1", "1e 3", "1e+-3"] {
        assert_eq!(parse_decimal(text), None, "{}", text);
    }
}

#[test]
fn params_new_accepts_exponent_notation() {
    let p = Params::new(Model::Sir, &tokens(&["1e3", "5e-4", "1E-1", "1e-1"])).unwrap();
    assert_eq!(p.total_population, 1000 * SCALE);
    assert_eq!(p.beta, 500_000);
    assert_eq!(p.gamma, 100_000_000);
    assert_eq!(p.dt, 100_000_000);
}

#[test]
fn params_new_reads_every_field_of_sirdv() {
    let p = Params::new(Model::Sirdv, &tokens(&["1000", "0.0005", "0.1", "0.01", "0.02", "0.1"]))
        .unwrap();
    assert_eq!(p.total_population, 1000 * SCALE);
    assert_eq!(p.beta, 500_000);
    assert_eq!(p.gamma, 100_000_000);
    assert_eq!(p.alpha, 10_000_000);
    assert_eq!(p.delta, 20_000_000);
    assert_eq!(p.dt, 100_000_000);
}

#[test]
fn params_new_sir_takes_dt_fourth_and_zero_rates() {
    let p = Params::new(Model::Sir, &tokens(&["1000", "0.0005", "0.1", "0.25", "extra"])).unwrap();
    assert_eq!(p.alpha, 0);
    assert_eq!(p.delta, 0);
    assert_eq!(p.dt, 250_000_000);
    let q = Params::new(Model::Sird, &tokens(&["10", "1", "2", "0.5", "3"])).unwrap();
    assert_eq!(q.alpha, 500_000_000);
    assert_eq!(q.delta, 0);
    assert_eq!(q.dt, 3 * SCALE);
}

#[test]
fn params_new_trims_whitespace_around_tokens() {
    let p = Params::new(Model::Sir, &tokens(&[" 1000 ", "\t0.0005", "0.1\n", "  0.1"])).unwrap();
    assert_eq!(p.total_population, 1000 * SCALE);
    assert_eq!(p.beta, 500_000);
    assert_eq!(p.gamma, 100_000_000);
    assert_eq!(p.dt, 100_000_000);
}

#[test]
fn params_new_reports_missing_tokens() {
    assert_eq!(Params::new(Model::Sir, &tokens(&["1000", "0.1", "0.1"])), Err(ParamError::ArgumentCount));
    assert_eq!(
        Params::new(Model::Sirdv, &tokens(&["1000", "0.1", "0.1", "0", "0.1"])),
        Err(ParamError::ArgumentCount)
    );
    assert_eq!(Params::new(Model::Sird, &[]), Err(ParamError::ArgumentCount));
}

#[test]
fn params_new_names_the_first_invalid_field() {
    assert_eq!(
        Params::new(Model::Sir, &tokens(&["1000", "x", "0.1", "0.1"])),
        Err(ParamError::Validation(Field::Beta))
    );
    assert_eq!(
        Params::new(Model::Sird, &tokens(&["1000", "0.1", "-0.1", "0.1", "bad"])),
        Err(ParamError::Validation(Field::Gamma))
    );
    assert_eq!(
        Params::new(Model::Sirdv, &tokens(&["1000", "0.1", "0.1", "0", "nan", "0.1"])),
        Err(ParamError::Validation(Field::Delta))
    );
    assert_eq!(
        Params::new(Model::Sird, &tokens(&["1000", "0.1", "0.1", "inf", "0.1"])),
        Err(ParamError::Validation(Field::Alpha))
    );
    assert_eq!(
        Params::new(Model::Sir, &tokens(&["many", "0.1", "0.1", "0.1"])),
        Err(ParamError::Validation(Field::TotalPopulation))
    );
}

#[test]
fn params_new_rejects_a_zero_time_step() {
    assert_eq!(
        Params::new(Model::Sir, &tokens(&["1000", "0.1", "0.1", "0"])),
        Err(ParamError::Validation(Field::Dt))
    );
    assert_eq!(
        Params::new(Model::Sir, &tokens(&["1000", "0.1", "0.1", "0.0000000001"])),
        Err(ParamError::Validation(Field::Dt))
    );
}
