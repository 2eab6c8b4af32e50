//! Resolving raw, possibly absent or repeated option values into concrete scenarios.
use vstd::prelude::*;
use crate::text::{Rate, int_of_text, rate_of_text, parse_int, parse_rate};

verus! {

/// An input of a scenario, named in errors.
#[derive(Clone, Copy, Debug, PartialEq, Eq, Structural)]
pub enum Field {
    Years,
    Apr,
    Taxes,
    Price,
    Funds,
    ClosingCosts,
    Insurance,
    Downpayment,
    Renovations,
}

/// Why resolution stopped; the first problem found ends it.
#[derive(Debug, PartialEq, Eq)]
pub enum ResolveError {
    /// A mandatory input was not given.
    MissingRequiredInput(Field),
    /// A value, given here as written, is not a number of the kind the input takes.
    InvalidInputFormat(Field, String),
    /// A scenario breaks a rule that ties its fields together; the field named is the one at fault.
    InvalidScenario(Field),
}

pub enum ErrorView {
    Missing(Field),
    Format(Field, Seq<char>),
    Invalid(Field),
}

impl View for ResolveError {
    type V = ErrorView;

    open spec fn view(&self) -> ErrorView {
        match self {
            ResolveError::MissingRequiredInput(f) => ErrorView::Missing(*f),
            ResolveError::InvalidInputFormat(f, t) => ErrorView::Format(*f, t@),
            ResolveError::InvalidScenario(f) => ErrorView::Invalid(*f),
        }
    }
}

pub open spec fn lift<T>(r: Result<T, ResolveError>) -> Result<T, ErrorView> {
    match r {
        Ok(v) => Ok(v),
        Err(e) => Err(e@),
    }
}

/// The value of an optional integer input: absent, a number, or a format error.
pub open spec fn optional_spec(t: Option<String>, f: Field) -> Result<Option<u32>, ErrorView> {
    match t {
        None => Ok(None),
        Some(t) => match int_of_text(t@) {
            Some(v) => Ok(Some(v)),
            None => Err(ErrorView::Format(f, t@)),
        },
    }
}

/// The value of a mandatory integer input.
pub open spec fn required_spec(t: Option<String>, f: Field) -> Result<u32, ErrorView> {
    match optional_spec(t, f) {
        Ok(Some(v)) => Ok(v),
        Ok(None) => Err(ErrorView::Missing(f)),
        Err(e) => Err(e),
    }
}

/// Every value of a repeated integer input, in order; the first that does not read fails.
pub open spec fn all_values_spec(ts: Seq<String>, f: Field) -> Result<Seq<u32>, ErrorView>
    decreases ts.len(),
{
    if ts.len() == 0 {
        Ok(Seq::empty())
    } else {
        match all_values_spec(ts.drop_last(), f) {
            Err(e) => Err(e),
            Ok(v) => match int_of_text(ts.last()@) {
                Some(x) => Ok(v.push(x)),
                None => Err(ErrorView::Format(f, ts.last()@)),
            },
        }
    }
}

/// `v` without repeats, each value where it first occurs.
pub open spec fn distinct(v: Seq<u32>) -> Seq<u32>
    decreases v.len(),
{
    if v.len() == 0 {
        v
    } else {
        let d = distinct(v.drop_last());
        if d.contains(v.last()) {
            d
        } else {
            d.push(v.last())
        }
    }
}

/// The values along one axis of expansion: one or more given, read, repeats dropped.
pub open spec fn axis_spec(ts: Seq<String>, f: Field) -> Result<Seq<u32>, ErrorView> {
    if ts.len() == 0 {
        Err(ErrorView::Missing(f))
    } else {
        match all_values_spec(ts, f) {
            Ok(v) => Ok(distinct(v)),
            Err(e) => Err(e),
        }
    }
}

fn optional_value(t: &Option<String>, f: Field) -> (r: Result<Option<u32>, ResolveError>)
    ensures
        lift(r) == optional_spec(*t, f),
{
    match t {
        None => Ok(None),
        Some(t) => match parse_int(t.as_str()) {
            Some(v) => Ok(Some(v)),
            None => Err(ResolveError::InvalidInputFormat(f, t.clone())),
        },
    }
}

fn required_value(t: &Option<String>, f: Field) -> (r: Result<u32, ResolveError>)
    ensures
        lift(r) == required_spec(*t, f),
{
    match optional_value(t, f) {
        Ok(Some(v)) => Ok(v),
        Ok(None) => Err(ResolveError::MissingRequiredInput(f)),
        Err(e) => Err(e),
    }
}

fn distinct_push(d: &mut Vec<u32>, x: u32)
    ensures
        final(d)@ == (if old(d)@.contains(x) { old(d)@ } else { old(d)@.push(x) }),
{
    let mut i: usize = 0;
    while i < d.len()
        invariant
            d@ == old(d)@,
            i <= d.len(),
            forall|j: int| 0 <= j < i ==> d@[j] != x,
        decreases d.len() - i,
    {
        if d[i] == x {
            return;
        }
        i = i + 1;
    }
    d.push(x);
}

fn axis_values(ts: &Vec<String>, f: Field) -> (r: Result<Vec<u32>, ResolveError>)
    ensures
        match (r, axis_spec(ts@, f)) {
            (Ok(v), Ok(s)) => v@ == s,
            (Err(e), Err(s)) => e@ == s,
            _ => false,
        },
{
    if ts.len() == 0 {
        return Err(ResolveError::MissingRequiredInput(f));
    }
    let mut d: Vec<u32> = Vec::new();
    let ghost mut all: Seq<u32> = Seq::empty();
    let mut i: usize = 0;
    while i < ts.len()
        invariant
            i <= ts.len(),
            all_values_spec(ts@.take(i as int), f) == Ok::<Seq<u32>, ErrorView>(all),
            d@ == distinct(all),
        decreases ts.len() - i,
    {
        let t = &ts[i];
        assert(ts@.take(i + 1).drop_last() == ts@.take(i as int));
        match parse_int(t.as_str()) {
            Some(x) => {
                distinct_push(&mut d, x);
                proof {
                    let before = all;
                    all = all.push(x);
                    assert(all.drop_last() == before);
                }
            },
            None => {
                proof {
                    lemma_first_error_stays(ts@, f, i as int + 1);
                }
                return Err(ResolveError::InvalidInputFormat(f, t.clone()));
            },
        }
        i = i + 1;
    }
    assert(ts@.take(ts.len() as int) == ts@);
    Ok(d)
}

proof fn lemma_first_error_stays(ts: Seq<String>, f: Field, n: int)
    requires
        0 <= n <= ts.len(),
        all_values_spec(ts.take(n), f) is Err,
    ensures
        all_values_spec(ts, f) == all_values_spec(ts.take(n), f),
    decreases ts.len() - n,
{
    if n < ts.len() {
        assert(ts.take(n + 1).drop_last() == ts.take(n));
        lemma_first_error_stays(ts, f, n + 1);
    } else {
        assert(ts.take(n) == ts);
    }
}

/// Parts per million: the unit of the default cost rates.
pub const PPM: u64 = 1_000_000;

/// What resolution assumes where an input is absent, and which checks it makes.
#[derive(Clone, Copy, Debug, PartialEq, Eq, Structural)]
pub struct Config {
    /// Closing costs as a share of the price, in parts per million.
    pub closing_cost_ppm: u32,
    /// Yearly insurance as a share of the price, in parts per million.
    pub insurance_ppm: u32,
    /// The annual rate taken when none is given.
    pub default_rate: Rate,
    /// Whether a downpayment above the price is refused.
    pub check_downpayment: bool,
}

impl Config {
    /// Closing costs of 7% and insurance of 0.3% of the price, a rate of 4.5%, and the
    /// downpayment held to the price.
    pub fn standard() -> (c: Config)
        ensures
            c.closing_cost_ppm == 70_000,
            c.insurance_ppm == 3_000,
            c.default_rate == (Rate { units: 45, scale: 3 }),
            c.default_rate.wf(),
            c.check_downpayment,
    {
        proof {
            reveal_with_fuel(crate::text::pow10, 4);
        }
        Config {
            closing_cost_ppm: 70_000,
            insurance_ppm: 3_000,
            default_rate: Rate { units: 45, scale: 3 },
            check_downpayment: true,
        }
    }
}

/// The raw option values: each absent, or as written; loan terms and prices may repeat.
pub struct RawParameters {
    pub years: Vec<String>,
    pub apr: Option<String>,
    pub taxes: Option<String>,
    pub prices: Vec<String>,
    pub funds: Option<String>,
    pub closing_costs: Option<String>,
    pub insurance: Option<String>,
    pub downpayment: Option<String>,
    pub renovations: Option<String>,
}

/// One fully resolved set of inputs; nothing in it is left to a default.
#[derive(Clone, Copy, Debug, PartialEq, Eq, Structural)]
pub struct Scenario {
    pub loan_term_months: u64,
    pub annual_rate: Rate,
    pub purchase_price: u64,
    pub available_funds: u64,
    pub annual_taxes: u64,
    pub annual_insurance: u64,
    pub closing_costs: u64,
    pub renovation_costs: u64,
    /// May be negative where costs exceed the funds.
    pub downpayment: i64,
}

impl Scenario {
    /// The amount borrowed: the price less the downpayment.
    pub fn principal(&self) -> (r: i128)
        ensures
            r == self.purchase_price - self.downpayment,
    {
        self.purchase_price as i128 - self.downpayment as i128
    }

    /// The loan term in whole years.
    pub fn term_years(&self) -> (r: u64)
        ensures
            r == self.loan_term_months / 12,
    {
        self.loan_term_months / 12
    }
}

/// The inputs once read, before expansion: the distinct terms (years) and prices,
/// and the optional amounts still unresolved.
pub struct Inputs {
    pub terms: Vec<u32>,
    pub prices: Vec<u32>,
    pub rate: Rate,
    pub taxes: u32,
    pub funds: u32,
    pub closing_costs: Option<u32>,
    pub insurance: Option<u32>,
    pub renovations: u32,
    pub downpayment: Option<u32>,
}

pub struct InputsView {
    pub terms: Seq<u32>,
    pub prices: Seq<u32>,
    pub rate: Rate,
    pub taxes: u32,
    pub funds: u32,
    pub closing_costs: Option<u32>,
    pub insurance: Option<u32>,
    pub renovations: u32,
    pub downpayment: Option<u32>,
}

impl View for Inputs {
    type V = InputsView;

    open spec fn view(&self) -> InputsView {
        InputsView {
            terms: self.terms@,
            prices: self.prices@,
            rate: self.rate,
            taxes: self.taxes,
            funds: self.funds,
            closing_costs: self.closing_costs,
            insurance: self.insurance,
            renovations: self.renovations,
            downpayment: self.downpayment,
        }
    }
}

/// The annual rate: the configured one if absent, else the text read as a fraction below one.
pub open spec fn rate_spec(t: Option<String>, cfg: Config) -> Result<Rate, ErrorView> {
    match t {
        None => Ok(cfg.default_rate),
        Some(t) => match rate_of_text(t@) {
            Some(r) => Ok(r),
            None => Err(ErrorView::Format(Field::Apr, t@)),
        },
    }
}

/// Reading the inputs, in this order: prices, taxes, funds (all mandatory), the rate,
/// closing costs, insurance, renovations, downpayment (all optional), loan terms (mandatory).
/// Renovations absent count as zero.
pub open spec fn inputs_spec(raw: RawParameters, cfg: Config) -> Result<InputsView, ErrorView> {
    match axis_spec(raw.prices@, Field::Price) {
        Err(e) => Err(e),
        Ok(prices) => match required_spec(raw.taxes, Field::Taxes) {
            Err(e) => Err(e),
            Ok(taxes) => match required_spec(raw.funds, Field::Funds) {
                Err(e) => Err(e),
                Ok(funds) => match rate_spec(raw.apr, cfg) {
                    Err(e) => Err(e),
                    Ok(rate) => match optional_spec(raw.closing_costs, Field::ClosingCosts) {
                        Err(e) => Err(e),
                        Ok(closing_costs) => match optional_spec(raw.insurance, Field::Insurance) {
                            Err(e) => Err(e),
                            Ok(insurance) => match optional_spec(raw.renovations, Field::Renovations) {
                                Err(e) => Err(e),
                                Ok(renovations) => match optional_spec(raw.downpayment, Field::Downpayment) {
                                    Err(e) => Err(e),
                                    Ok(downpayment) => match axis_spec(raw.years@, Field::Years) {
                                        Err(e) => Err(e),
                                        Ok(terms) => Ok(InputsView {
                                            terms,
                                            prices,
                                            rate,
                                            taxes,
                                            funds,
                                            closing_costs,
                                            insurance,
                                            renovations: match renovations {
                                                Some(v) => v,
                                                None => 0,
                                            },
                                            downpayment,
                                        }),
                                    },
                                },
                            },
                        },
                    },
                },
            },
        },
    }
}

/// Reads every input of `raw`, stopping at the first that is missing or does not read.
pub fn read_inputs(raw: &RawParameters, cfg: &Config) -> (r: Result<Inputs, ResolveError>)
    ensures
        match (r, inputs_spec(*raw, *cfg)) {
            (Ok(v), Ok(s)) => v@ == s,
            (Err(e), Err(s)) => e@ == s,
            _ => false,
        },
{
    let prices = match axis_values(&raw.prices, Field::Price) {
        Ok(v) => v,
        Err(e) => return Err(e),
    };
    let taxes = match required_value(&raw.taxes, Field::Taxes) {
        Ok(v) => v,
        Err(e) => return Err(e),
    };
    let funds = match required_value(&raw.funds, Field::Funds) {
        Ok(v) => v,
        Err(e) => return Err(e),
    };
    let rate = match &raw.apr {
        None => cfg.default_rate,
        Some(t) => match parse_rate(t.as_str()) {
            Some(r) => r,
            None => return Err(ResolveError::InvalidInputFormat(Field::Apr, t.clone())),
        },
    };
    let closing_costs = match optional_value(&raw.closing_costs, Field::ClosingCosts) {
        Ok(v) => v,
        Err(e) => return Err(e),
    };
    let insurance = match optional_value(&raw.insurance, Field::Insurance) {
        Ok(v) => v,
        Err(e) => return Err(e),
    };
    let renovations = match optional_value(&raw.renovations, Field::Renovations) {
        Ok(Some(v)) => v,
        Ok(None) => 0,
        Err(e) => return Err(e),
    };
    let downpayment = match optional_value(&raw.downpayment, Field::Downpayment) {
        Ok(v) => v,
        Err(e) => return Err(e),
    };
    let terms = match axis_values(&raw.years, Field::Years) {
        Ok(v) => v,
        Err(e) => return Err(e),
    };
    Ok(Inputs { terms, prices, rate, taxes, funds, closing_costs, insurance, renovations, downpayment })
}

/// `ppm` parts per million of `amount`, rounded down.
pub open spec fn share(amount: u32, ppm: u32) -> u64 {
    ((amount as int) * (ppm as int) / (PPM as int)) as u64
}

/// The scenario for one loan term (in years) and one price: closing costs and insurance
/// not given are the configured shares of the price, and a downpayment not given is the
/// funds less renovations and closing costs, negative or not.
pub open spec fn scenario_spec(inp: InputsView, years: u32, price: u32, cfg: Config) -> Scenario {
    let closing_costs = match inp.closing_costs {
        Some(c) => c as u64,
        None => share(price, cfg.closing_cost_ppm),
    };
    Scenario {
        loan_term_months: (years as int * 12) as u64,
        annual_rate: inp.rate,
        purchase_price: price as u64,
        available_funds: inp.funds as u64,
        annual_taxes: inp.taxes as u64,
        annual_insurance: match inp.insurance {
            Some(i) => i as u64,
            None => share(price, cfg.insurance_ppm),
        },
        closing_costs,
        renovation_costs: inp.renovations as u64,
        downpayment: match inp.downpayment {
            Some(d) => d as i64,
            None => (inp.funds as int - inp.renovations as int - closing_costs as int) as i64,
        },
    }
}

/// The rule a scenario breaks, if any: its term and its price must be positive, and,
/// where the configuration asks, its downpayment at most its price.
pub open spec fn problem_of(s: Scenario, cfg: Config) -> Option<Field> {
    if s.loan_term_months == 0 {
        Some(Field::Years)
    } else if s.purchase_price == 0 {
        Some(Field::Price)
    } else if cfg.check_downpayment && s.downpayment > s.purchase_price {
        Some(Field::Downpayment)
    } else {
        None
    }
}

/// The rule broken by the first scenario of `ss` that breaks one.
pub open spec fn first_problem(ss: Seq<Scenario>, cfg: Config) -> Option<Field>
    decreases ss.len(),
{
    if ss.len() == 0 {
        None
    } else {
        match first_problem(ss.drop_last(), cfg) {
            Some(f) => Some(f),
            None => problem_of(ss.last(), cfg),
        }
    }
}

/// One scenario per pair of a term and a price, terms varying slowest:
/// scenario `k` takes term `k / P` and price `k % P`, for `P` prices.
pub open spec fn expansion(inp: InputsView, cfg: Config) -> Seq<Scenario> {
    let np = inp.prices.len() as int;
    Seq::new(
        (inp.terms.len() * inp.prices.len()) as nat,
        |k: int| scenario_spec(inp, inp.terms[k / np], inp.prices[k % np], cfg),
    )
}

/// The expansion, or the rule that the first scenario at fault breaks.
pub open spec fn expand_spec(inp: InputsView, cfg: Config) -> Result<Seq<Scenario>, ErrorView> {
    let all = expansion(inp, cfg);
    match first_problem(all, cfg) {
        Some(f) => Err(ErrorView::Invalid(f)),
        None => Ok(all),
    }
}

/// What resolution yields: every scenario, or the first error; never a part of them.
pub open spec fn resolve_spec(raw: RawParameters, cfg: Config) -> Result<Seq<Scenario>, ErrorView> {
    match inputs_spec(raw, cfg) {
        Err(e) => Err(e),
        Ok(inp) => expand_spec(inp, cfg),
    }
}

/// `r` is what resolving `raw` under `cfg` yields.
pub open spec fn resolves_to(raw: RawParameters, cfg: Config, r: Result<Vec<Scenario>, ResolveError>) -> bool {
    match (r, resolve_spec(raw, cfg)) {
        (Ok(v), Ok(s)) => v@ == s,
        (Err(e), Err(s)) => e@ == s,
        _ => false,
    }
}

/// `ppm` parts per million of `amount`, rounded down.
pub fn default_share(amount: u32, ppm: u32) -> (r: u64)
    ensures
        r == share(amount, ppm),
        r <= 0xFFFF_FFFF_FFFF,
{
    let a = amount as u64;
    let p = ppm as u64;
    assert(a * p <= 0xFFFF_FFFFu64 * 0xFFFF_FFFFu64) by (nonlinear_arith)
        requires
            a <= 0xFFFF_FFFF,
            p <= 0xFFFF_FFFF,
    ;
    a * p / PPM
}

/// The scenario for a term of `years` years and a price of `price`.
pub fn scenario_for(inp: &Inputs, years: u32, price: u32, cfg: &Config) -> (s: Scenario)
    ensures
        s == scenario_spec(inp@, years, price, *cfg),
{
    let closing_costs = match inp.closing_costs {
        Some(c) => c as u64,
        None => default_share(price, cfg.closing_cost_ppm),
    };
    let annual_insurance = match inp.insurance {
        Some(i) => i as u64,
        None => default_share(price, cfg.insurance_ppm),
    };
    let downpayment = match inp.downpayment {
        Some(d) => d as i64,
        None => inp.funds as i64 - inp.renovations as i64 - closing_costs as i64,
    };
    Scenario {
        loan_term_months: years as u64 * 12,
        annual_rate: inp.rate,
        purchase_price: price as u64,
        available_funds: inp.funds as u64,
        annual_taxes: inp.taxes as u64,
        annual_insurance,
        closing_costs,
        renovation_costs: inp.renovations as u64,
        downpayment,
    }
}

/// The rule that `s` breaks, if any.
pub fn problem(s: &Scenario, cfg: &Config) -> (r: Option<Field>)
    ensures
        r == problem_of(*s, *cfg),
{
    if s.loan_term_months == 0 {
        Some(Field::Years)
    } else if s.purchase_price == 0 {
        Some(Field::Price)
    } else if cfg.check_downpayment && s.downpayment >= 0 && s.downpayment as u64 > s.purchase_price {
        Some(Field::Downpayment)
    } else {
        None
    }
}

proof fn lemma_first_problem_stays(ss: Seq<Scenario>, cfg: Config, n: int)
    requires
        0 <= n <= ss.len(),
        first_problem(ss.take(n), cfg) is Some,
    ensures
        first_problem(ss, cfg) == first_problem(ss.take(n), cfg),
    decreases ss.len() - n,
{
    if n < ss.len() {
        assert(ss.take(n + 1).drop_last() == ss.take(n));
        lemma_first_problem_stays(ss, cfg, n + 1);
    } else {
        assert(ss.take(n) == ss);
    }
}

/// Every pair of a term and a price of `inp`, as a scenario, unless one breaks a rule.
pub fn expand(inp: &Inputs, cfg: &Config) -> (r: Result<Vec<Scenario>, ResolveError>)
    ensures
        match (r, expand_spec(inp@, *cfg)) {
            (Ok(v), Ok(s)) => v@ == s,
            (Err(e), Err(s)) => e@ == s,
            _ => false,
        },
{
    let ghost all = expansion(inp@, *cfg);
    let nt = inp.terms.len();
    let np = inp.prices.len();
    let mut out: Vec<Scenario> = Vec::new();
    let mut i: usize = 0;
    while i < nt
        invariant
            all == expansion(inp@, *cfg),
            nt == inp.terms.len(),
            np == inp.prices.len(),
            i <= nt,
            out@ == all.take(i * np),
            first_problem(out@, *cfg) is None,
        decreases nt - i,
    {
        let mut j: usize = 0;
        while j < np
            invariant
                all == expansion(inp@, *cfg),
                nt == inp.terms.len(),
                np == inp.prices.len(),
                i < nt,
                j <= np,
                out@ == all.take(i * np + j),
                first_problem(out@, *cfg) is None,
            decreases np - j,
        {
            let s = scenario_for(inp, inp.terms[i], inp.prices[j], cfg);
            let ghost k = i * np + j;
            proof {
                assert(k < nt * np) by (nonlinear_arith)
                    requires
                        k == i * np + j,
                        i < nt,
                        j < np,
                ;
                vstd::arithmetic::div_mod::lemma_fundamental_div_mod_converse_div(k, np as int, i as int, j as int);
                vstd::arithmetic::div_mod::lemma_fundamental_div_mod_converse_mod(k, np as int, i as int, j as int);
                assert(all[k] == s);
                assert(all.take(k + 1) == all.take(k).push(s));
                assert(all.take(k + 1).drop_last() == all.take(k));
            }
            match problem(&s, cfg) {
                Some(f) => {
                    proof {
                        lemma_first_problem_stays(all, *cfg, k + 1);
                    }
                    return Err(ResolveError::InvalidScenario(f));
                },
                None => {},
            }
            out.push(s);
            j = j + 1;
        }
        assert(i * np + np == (i + 1) * np) by (nonlinear_arith);
        i = i + 1;
    }
    assert(all.take(nt * np) == all);
    Ok(out)
}

proof fn lemma_no_problem_anywhere(ss: Seq<Scenario>, cfg: Config)
    requires
        first_problem(ss, cfg) is None,
    ensures
        forall|k: int| 0 <= k < ss.len() ==> #[trigger] problem_of(ss[k], cfg) is None,
    decreases ss.len(),
{
    if ss.len() > 0 {
        let p = ss.drop_last();
        lemma_no_problem_anywhere(p, cfg);
        assert forall|k: int| 0 <= k < ss.len() implies #[trigger] problem_of(ss[k], cfg) is None by {
            if k < p.len() {
                assert(ss[k] == p[k]);
                assert(problem_of(p[k], cfg) is None);
            }
        }
    }
}

/// Every scenario that resolution yields keeps the rules: a positive term and price,
/// and a downpayment at most the price where the configuration checks it.
pub proof fn lemma_resolved_scenarios_valid(raw: RawParameters, cfg: Config)
    ensures
        resolve_spec(raw, cfg) matches Ok(ss) ==> forall|k: int|
            0 <= k < ss.len() ==> #[trigger] problem_of(ss[k], cfg) is None,
{
    if let Ok(inp) = inputs_spec(raw, cfg) {
        if first_problem(expansion(inp, cfg), cfg) is None {
            lemma_no_problem_anywhere(expansion(inp, cfg), cfg);
        }
    }
}

/// Resolves raw option values into scenarios: all of them, or the first error met.
pub fn resolve(raw: &RawParameters, cfg: &Config) -> (r: Result<Vec<Scenario>, ResolveError>)
    ensures
        resolves_to(*raw, *cfg, r),
        r matches Ok(v) ==> forall|k: int| 0 <= k < v.len() ==> #[trigger] problem_of(v@[k], *cfg) is None,
{
    proof {
        lemma_resolved_scenarios_valid(*raw, *cfg);
    }
    match read_inputs(raw, cfg) {
        Err(e) => Err(e),
        Ok(inp) => expand(&inp, cfg),
    }
}

/// Resolution is a function of its inputs: any two results of resolving the same raw
/// values under the same configuration are identical, scenario for scenario.
pub proof fn lemma_resolution_idempotent(
    raw: RawParameters,
    cfg: Config,
    a: Result<Vec<Scenario>, ResolveError>,
    b: Result<Vec<Scenario>, ResolveError>,
)
    requires
        resolves_to(raw, cfg, a),
        resolves_to(raw, cfg, b),
    ensures
        match (a, b) {
            (Ok(x), Ok(y)) => x@ == y@,
            (Err(x), Err(y)) => x@ == y@,
            _ => false,
        },
{
}

proof fn lemma_distinct_single(x: u32)
    ensures
        distinct(seq![x]) == seq![x],
{
    assert(seq![x].drop_last() =~= Seq::<u32>::empty());
    assert(distinct(Seq::<u32>::empty()) == Seq::<u32>::empty());
    assert(!Seq::<u32>::empty().contains(x));
    assert(Seq::<u32>::empty().push(x) =~= seq![x]);
}

/// Two different loan terms and one price give exactly two scenarios, one per term in
/// the order given, that differ in the loan term alone.
pub proof fn lemma_two_terms(raw: RawParameters, cfg: Config, first: u32, second: u32)
    requires
        raw.years@.len() == 2,
        int_of_text(raw.years@[0]@) == Some(first),
        int_of_text(raw.years@[1]@) == Some(second),
        first != second,
        raw.prices@.len() == 1,
    ensures
        resolve_spec(raw, cfg) matches Ok(ss) ==> {
            &&& ss.len() == 2
            &&& ss[0].loan_term_months == 12 * first
            &&& ss[1].loan_term_months == 12 * second
            &&& ss[1] == (Scenario { loan_term_months: ss[1].loan_term_months, ..ss[0] })
        },
{
    let ys = raw.years@;
    assert(ys.take(1).drop_last() == ys.take(0));
    assert(ys.drop_last() == ys.take(1));
    assert(ys.take(1).last() == ys[0]);
    assert(all_values_spec(ys.take(0), Field::Years) == Ok::<Seq<u32>, ErrorView>(Seq::empty()));
    assert(all_values_spec(ys.take(1), Field::Years) == Ok::<Seq<u32>, ErrorView>(seq![first]));
    let v = seq![first, second];
    assert(Seq::<u32>::empty().push(first) =~= seq![first]);
    assert(seq![first].push(second) =~= v);
    assert(ys.last() == ys[1]);
    assert(all_values_spec(ys, Field::Years) == Ok::<Seq<u32>, ErrorView>(v));
    assert(v.drop_last() == seq![first]);
    assert(seq![first].drop_last() == Seq::<u32>::empty());
    lemma_distinct_single(first);
    let ps = raw.prices@;
    assert(ps.drop_last() =~= Seq::<String>::empty());
    assert(all_values_spec(ps.drop_last(), Field::Price) == Ok::<Seq<u32>, ErrorView>(Seq::empty()));
    match all_values_spec(ps, Field::Price) {
        Ok(pv) => {
            assert(pv =~= seq![pv[0]]);
            lemma_distinct_single(pv[0]);
        },
        Err(_) => {},
    }
    assert(!seq![first].contains(second));
    assert(distinct(v) == v);
    match inputs_spec(raw, cfg) {
        Ok(inp) => {
            assert(inp.terms == v);
            let all = expansion(inp, cfg);
            assert(inp.prices.len() == 1);
            assert(inp.terms.len() == 2);
            assert(inp.terms.len() * inp.prices.len() == 2) by (nonlinear_arith)
                requires
                    inp.prices.len() == 1,
                    inp.terms.len() == 2,
            ;
            assert(all.len() == 2);
            assert(0int / 1 == 0 && 1int / 1 == 1 && 0int % 1 == 0 && 1int % 1 == 0);
            assert(all[0] == scenario_spec(inp, first, inp.prices[0], cfg));
            assert(all[1] == scenario_spec(inp, second, inp.prices[0], cfg));
        },
        Err(_) => {},
    }
}

} // verus!
