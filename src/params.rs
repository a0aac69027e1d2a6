//! The validated bundle of model coefficients.
use vstd::prelude::*;
use vstd::utf8::encode_utf8;
use crate::decimal::{decimal_field, parse_decimal};
use crate::model::Model;

verus! {

/// Model coefficients, each a non-negative fixed-point quantity
/// (see `fixed::SCALE`).
#[derive(Clone, Copy, Debug, PartialEq, Eq)]
pub struct Params {
    /// Headcount at the start of the simulation.
    pub total_population: u64,
    /// Transmission coefficient.
    pub beta: u64,
    /// Recovery rate.
    pub gamma: u64,
    /// Mortality rate.
    pub alpha: u64,
    /// Vaccination rate.
    pub delta: u64,
    /// Time-step size; positive in a validated set.
    pub dt: u64,
}

/// One coefficient of the parameter set.
#[derive(Clone, Copy, Debug, PartialEq, Eq)]
pub enum Field {
    TotalPopulation,
    Beta,
    Gamma,
    Alpha,
    Delta,
    Dt,
}

/// Why a parameter set could not be built.
#[derive(Clone, Copy, Debug, PartialEq, Eq)]
pub enum ParamError {
    /// Fewer tokens than the model variant needs.
    ArgumentCount,
    /// The named field is not a non-negative decimal that fits, or is a
    /// zero time step.
    Validation(Field),
}

/// What `str::trim` leaves of a text.
pub uninterp spec fn trim_of(s: Seq<char>) -> Seq<char>;

/// Whether a character is a visible ASCII character, never whitespace.
pub open spec fn ascii_graphic(c: char) -> bool {
    '!' <= c <= '~'
}

/// Relies on `str::trim`: the text with leading and trailing whitespace
/// removed, which depends on the text alone. The result is a contiguous
/// part of the text, and a text that starts and ends with a visible ASCII
/// character has no whitespace to remove at either end.
#[verifier::external_body]
fn trim_token(s: &str) -> (r: &str)
    ensures
        r@ == trim_of(s@),
        r@.len() <= s@.len() && exists|i: int|
            0 <= i <= s@.len() - r@.len() && r@ == #[trigger] s@.subrange(i, i + r@.len()),
        s@.len() > 0 && ascii_graphic(s@[0]) && ascii_graphic(s@.last()) ==> r@ == s@,
{
    s.trim()
}

/// How many tokens the model variant reads.
pub open spec fn required(m: Model) -> nat {
    match m {
        Model::Sir => 4,
        Model::Sird => 5,
        Model::Sirdv => 6,
    }
}

/// The field the `i`-th token gives: the population, `beta` and `gamma`
/// first, then `alpha` and `delta` where the model has them, `dt` last.
pub open spec fn field_at(m: Model, i: int) -> Field {
    if i == 0 {
        Field::TotalPopulation
    } else if i == 1 {
        Field::Beta
    } else if i == 2 {
        Field::Gamma
    } else if i == required(m) - 1 {
        Field::Dt
    } else if i == 3 {
        Field::Alpha
    } else {
        Field::Delta
    }
}

/// The value a token gives once trimmed.
pub open spec fn token_value(tok: String) -> Option<u64> {
    decimal_field(encode_utf8(trim_of(tok@)))
}

/// Whether the `i`-th token is acceptable for its field.
pub open spec fn token_ok(m: Model, tokens: Seq<String>, i: int) -> bool {
    &&& token_value(tokens[i]) is Some
    &&& field_at(m, i) is Dt ==> token_value(tokens[i])->0 != 0
}

/// The parameter set that valid tokens give; absent rates are zero.
pub open spec fn params_of(m: Model, tokens: Seq<String>) -> Params {
    Params {
        total_population: token_value(tokens[0])->0,
        beta: token_value(tokens[1])->0,
        gamma: token_value(tokens[2])->0,
        alpha: if m is Sir { 0 } else { token_value(tokens[3])->0 },
        delta: if m is Sirdv { token_value(tokens[4])->0 } else { 0 },
        dt: token_value(tokens[required(m) - 1])->0,
    }
}

impl Params {
    /// Builds a parameter set from the tokens of model `m`, in the order
    /// population, `beta`, `gamma`, `alpha`, `delta`, `dt` (`alpha` only
    /// from SIRD on, `delta` only in SIRDV). Tokens past those are ignored.
    /// The first field that fails to validate is named in the error.
    pub fn new(m: Model, tokens: &[String]) -> (r: Result<Params, ParamError>)
        ensures
            tokens@.len() < required(m) <==> r == Err::<Params, ParamError>(
                ParamError::ArgumentCount,
            ),
            tokens@.len() >= required(m) ==> (r is Ok <==> forall|i: int|
                0 <= i < required(m) ==> token_ok(m, tokens@, i)),
            r is Ok ==> r->Ok_0 == params_of(m, tokens@) && r->Ok_0.dt > 0,
            forall|f: Field|
                r == Err::<Params, ParamError>(ParamError::Validation(f)) ==> exists|i: int|
                    0 <= i < required(m) && field_at(m, i) == f && !token_ok(m, tokens@, i)
                        && forall|j: int| 0 <= j < i ==> token_ok(m, tokens@, j),
    {
        let need: usize = match m {
            Model::Sir => 4,
            Model::Sird => 5,
            Model::Sirdv => 6,
        };
        if tokens.len() < need {
            return Err(ParamError::ArgumentCount);
        }
        let mut vals: Vec<u64> = Vec::new();
        let mut i: usize = 0;
        while i < need
            invariant
                need == required(m),
                tokens@.len() >= need,
                i <= need,
                vals@.len() == i,
                forall|j: int| 0 <= j < i ==> token_ok(m, tokens@, j),
                forall|j: int| 0 <= j < i ==> Some(#[trigger] vals@[j]) == token_value(tokens@[j]),
            decreases need - i,
        {
            let field = field_name(m, i);
            let trimmed = trim_token(tokens[i].as_str());
            let parsed = parse_decimal(trimmed);
            assert(parsed == token_value(tokens@[i as int]));
            assert(field_at(m, i as int) is Dt <==> i + 1 == need);
            match parsed {
                Some(v) => {
                    if i + 1 == need && v == 0 {
                        assert(!token_ok(m, tokens@, i as int));
                        return Err(ParamError::Validation(field));
                    }
                    vals.push(v);
                },
                None => {
                    assert(!token_ok(m, tokens@, i as int));
                    return Err(ParamError::Validation(field));
                },
            }
            i = i + 1;
        }
        assert(token_ok(m, tokens@, need - 1));
        assert(field_at(m, need - 1) is Dt);
        let alpha: u64 = match m {
            Model::Sir => 0,
            _ => vals[3],
        };
        let delta: u64 = match m {
            Model::Sirdv => vals[4],
            _ => 0,
        };
        Ok(Params {
            total_population: vals[0],
            beta: vals[1],
            gamma: vals[2],
            alpha,
            delta,
            dt: vals[need - 1],
        })
    }
}

/// The field the `i`-th token of model `m` gives.
fn field_name(m: Model, i: usize) -> (r: Field)
    requires
        i < required(m),
    ensures
        r == field_at(m, i as int),
{
    let need: usize = match m {
        Model::Sir => 4,
        Model::Sird => 5,
        Model::Sirdv => 6,
    };
    if i == 0 {
        Field::TotalPopulation
    } else if i == 1 {
        Field::Beta
    } else if i == 2 {
        Field::Gamma
    } else if i + 1 == need {
        Field::Dt
    } else if i == 3 {
        Field::Alpha
    } else {
        Field::Delta
    }
}

} // verus!
