use mortgage::scenario::{
    default_share, expand, read_inputs, resolve, scenario_for, Config, Field, RawParameters,
    ResolveError, Scenario,
};
use mortgage::text::Rate;

fn raw() -> RawParameters {
    RawParameters {
        years: vec!["30".to_string()],
        apr: Some("0.05".to_string()),
        taxes: Some("3000".to_string()),
        prices: vec!["200000".to_string()],
        funds: Some("50000".to_string()),
        closing_costs: Some("0".to_string()),
        insurance: None,
        downpayment: None,
        renovations: Some("0".to_string()),
    }
}

fn one(r: Result<Vec<Scenario>, ResolveError>) -> Scenario {
    let v = r.unwrap();
    assert_eq!(v.len(), 1);
    v[0]
}

#[test]
fn end_to_end_resolution() {
    let s = one(resolve(&raw(), &Config::standard()));
    assert_eq!(s.downpayment, 50000);
    assert_eq!(s.principal(), 150000);
    assert_eq!(s.loan_term_months, 360);
    assert_eq!(s.term_years(), 30);
    assert_eq!(s.annual_rate, Rate { units: 5, scale: 2 });
    assert_eq!(s.purchase_price, 200000);
    assert_eq!(s.annual_taxes, 3000);
    assert_eq!(s.annual_insurance, 600);
}

#[test]
fn default_closing_costs_and_insurance() {
    let mut r = raw();
    r.prices = vec!["300000".to_string()];
    r.closing_costs = None;
    r.insurance = None;
    let s = one(resolve(&r, &Config::standard()));
    assert_eq!(s.closing_costs, 21000);
    assert_eq!(s.annual_insurance, 900);
    assert_eq!(s.downpayment, 50000 - 0 - 21000);
}

#[test]
fn default_rate_and_renovations() {
    let mut r = raw();
    r.apr = None;
    r.renovations = None;
    let s = one(resolve(&r, &Config::standard()));
    assert_eq!(s.annual_rate, Rate { units: 45, scale: 3 });
    assert_eq!(s.renovation_costs, 0);
}

#[test]
fn downpayment_subtracts_renovations_and_closing() {
    let mut r = raw();
    r.renovations = Some("10000".to_string());
    r.closing_costs = Some("5000".to_string());
    let s = one(resolve(&r, &Config::standard()));
    assert_eq!(s.downpayment, 35000);
    assert_eq!(s.principal(), 165000);
}

#[test]
fn explicit_downpayment_kept() {
    let mut r = raw();
    r.downpayment = Some("40000".to_string());
    let s = one(resolve(&r, &Config::standard()));
    assert_eq!(s.downpayment, 40000);
}

#[test]
fn negative_downpayment_accepted() {
    let mut r = raw();
    r.funds = Some("1000".to_string());
    r.closing_costs = None;
    let s = one(resolve(&r, &Config::standard()));
    assert_eq!(s.closing_costs, 14000);
    assert_eq!(s.downpayment, -13000);
    assert_eq!(s.principal(), 213000);
}

#[test]
fn missing_price_fails() {
    let mut r = raw();
    r.prices = vec![];
    assert_eq!(resolve(&r, &Config::standard()), Err(ResolveError::MissingRequiredInput(Field::Price)));
}

#[test]
fn missing_taxes_funds_and_term_fail() {
    let cfg = Config::standard();
    let mut r = raw();
    r.taxes = None;
    assert_eq!(resolve(&r, &cfg), Err(ResolveError::MissingRequiredInput(Field::Taxes)));
    let mut r = raw();
    r.funds = None;
    assert_eq!(resolve(&r, &cfg), Err(ResolveError::MissingRequiredInput(Field::Funds)));
    let mut r = raw();
    r.years = vec![];
    assert_eq!(resolve(&r, &cfg), Err(ResolveError::MissingRequiredInput(Field::Years)));
}

#[test]
fn first_error_wins() {
    let mut r = raw();
    r.prices = vec![];
    r.taxes = Some("x".to_string());
    r.years = vec![];
    assert_eq!(resolve(&r, &Config::standard()), Err(ResolveError::MissingRequiredInput(Field::Price)));
    let mut r = raw();
    r.taxes = Some("x".to_string());
    r.funds = None;
    assert_eq!(
        resolve(&r, &Config::standard()),
        Err(ResolveError::InvalidInputFormat(Field::Taxes, "x".to_string()))
    );
}

#[test]
fn malformed_values_fail() {
    let cfg = Config::standard();
    let mut r = raw();
    r.prices = vec!["200000".to_string(), "2e5".to_string()];
    assert_eq!(resolve(&r, &cfg), Err(ResolveError::InvalidInputFormat(Field::Price, "2e5".to_string())));
    let mut r = raw();
    r.apr = Some("5%".to_string());
    assert_eq!(resolve(&r, &cfg), Err(ResolveError::InvalidInputFormat(Field::Apr, "5%".to_string())));
    let mut r = raw();
    r.years = vec!["30.5".to_string()];
    assert_eq!(resolve(&r, &cfg), Err(ResolveError::InvalidInputFormat(Field::Years, "30.5".to_string())));
    let mut r = raw();
    r.insurance = Some("12.50".to_string());
    assert_eq!(
        resolve(&r, &cfg),
        Err(ResolveError::InvalidInputFormat(Field::Insurance, "12.50".to_string()))
    );
    let mut r = raw();
    r.downpayment = Some("-1".to_string());
    assert_eq!(
        resolve(&r, &cfg),
        Err(ResolveError::InvalidInputFormat(Field::Downpayment, "-1".to_string()))
    );
}

#[test]
fn invalid_scenarios_fail() {
    let cfg = Config::standard();
    let mut r = raw();
    r.years = vec!["30".to_string(), "0".to_string()];
    assert_eq!(resolve(&r, &cfg), Err(ResolveError::InvalidScenario(Field::Years)));
    let mut r = raw();
    r.prices = vec!["0".to_string()];
    assert_eq!(resolve(&r, &cfg), Err(ResolveError::InvalidScenario(Field::Price)));
    let mut r = raw();
    r.downpayment = Some("250000".to_string());
    assert_eq!(resolve(&r, &cfg), Err(ResolveError::InvalidScenario(Field::Downpayment)));
}

#[test]
fn downpayment_check_can_be_switched_off() {
    let mut cfg = Config::standard();
    cfg.check_downpayment = false;
    let mut r = raw();
    r.downpayment = Some("250000".to_string());
    let s = one(resolve(&r, &cfg));
    assert_eq!(s.downpayment, 250000);
    assert_eq!(s.principal(), -50000);
}

#[test]
fn two_terms_give_two_scenarios() {
    let mut r = raw();
    r.years = vec!["15".to_string(), "30".to_string()];
    let v = resolve(&r, &Config::standard()).unwrap();
    assert_eq!(v.len(), 2);
    assert_eq!(v[0].loan_term_months, 180);
    assert_eq!(v[1].loan_term_months, 360);
    assert_eq!(Scenario { loan_term_months: 360, ..v[0] }, v[1]);
}

#[test]
fn repeated_terms_counted_once() {
    let mut r = raw();
    r.years = vec!["30".to_string(), "15".to_string(), "030".to_string()];
    let v = resolve(&r, &Config::standard()).unwrap();
    assert_eq!(v.len(), 2);
    assert_eq!(v[0].loan_term_months, 360);
    assert_eq!(v[1].loan_term_months, 180);
}

#[test]
fn terms_and_prices_cross() {
    let mut r = raw();
    r.years = vec!["15".to_string(), "30".to_string()];
    r.prices = vec!["200000".to_string(), "300000".to_string()];
    r.closing_costs = None;
    let v = resolve(&r, &Config::standard()).unwrap();
    assert_eq!(v.len(), 4);
    let pairs: Vec<(u64, u64)> = v.iter().map(|s| (s.loan_term_months, s.purchase_price)).collect();
    assert_eq!(pairs, vec![(180, 200000), (180, 300000), (360, 200000), (360, 300000)]);
    assert_eq!(v[0].closing_costs, 14000);
    assert_eq!(v[1].closing_costs, 21000);
    assert_eq!(v[1].downpayment, 29000);
}

#[test]
fn resolving_twice_is_identical() {
    let mut r = raw();
    r.years = vec!["15".to_string(), "30".to_string()];
    let cfg = Config::standard();
    assert_eq!(resolve(&r, &cfg), resolve(&r, &cfg));
    r.prices = vec![];
    assert_eq!(resolve(&r, &cfg), resolve(&r, &cfg));
}

#[test]
fn configured_shares_apply() {
    let cfg = Config { closing_cost_ppm: 10_000, insurance_ppm: 5_000, ..Config::standard() };
    let mut r = raw();
    r.closing_costs = None;
    let s = one(resolve(&r, &cfg));
    assert_eq!(s.closing_costs, 2000);
    assert_eq!(s.annual_insurance, 1000);
}

#[test]
fn share_rounds_down() {
    assert_eq!(default_share(300000, 70_000), 21000);
    assert_eq!(default_share(333, 3_000), 0);
    assert_eq!(default_share(1_000_001, 3_000), 3000);
    assert_eq!(default_share(u32::MAX, u32::MAX), 18_446_744_065_119);
}

#[test]
fn standard_configuration() {
    let cfg = Config::standard();
    assert_eq!(cfg.closing_cost_ppm, 70_000);
    assert_eq!(cfg.insurance_ppm, 3_000);
    assert_eq!(cfg.default_rate, Rate { units: 45, scale: 3 });
    assert!(cfg.check_downpayment);
}

#[test]
fn inputs_then_expansion() {
    let cfg = Config::standard();
    let inp = read_inputs(&raw(), &cfg).unwrap();
    assert_eq!(inp.terms, vec![30]);
    assert_eq!(inp.prices, vec![200000]);
    assert_eq!(inp.insurance, None);
    let s = scenario_for(&inp, 20, 100000, &cfg);
    assert_eq!(s.loan_term_months, 240);
    assert_eq!(s.annual_insurance, 300);
    assert_eq!(s.downpayment, 50000);
    assert_eq!(expand(&inp, &cfg).unwrap(), resolve(&raw(), &cfg).unwrap());
}
