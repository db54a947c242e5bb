use crate::charset::{base_valid, valid_payload, validate_base, validate_input, Charset};
use crate::charset::distinct;
use crate::numeral::{canonical, convert_base, converted, lemma_convert_back, lemma_converted_shape};
use vstd::prelude::*;

verus! {

/// Why a transformation was refused.
#[derive(Debug, PartialEq, Eq)]
pub enum CipherError {
    /// A base of the sequence lies outside `2..=` the alphabet's size.
    InvalidBase,
    /// `payload` holds a symbol that is no digit of `base`.
    InvalidSymbol { payload: String, base: usize },
}

/// What contracts say of a refusal.
pub enum Failure {
    InvalidBase,
    InvalidSymbol { payload: Seq<char>, base: nat },
}

impl CipherError {
    pub open spec fn failure(&self) -> Failure {
        match self {
            CipherError::InvalidBase => Failure::InvalidBase,
            CipherError::InvalidSymbol { payload, base } => Failure::InvalidSymbol {
                payload: payload@,
                base: *base as nat,
            },
        }
    }
}

/// The outcome of a transformation, as contracts speak of it.
pub open spec fn outcome(r: Result<String, CipherError>) -> Result<Seq<char>, Failure> {
    match r {
        Ok(s) => Ok(s@),
        Err(e) => Err(e.failure()),
    }
}

/// Every base of `bases` can be written with the alphabet `cs`.
pub open spec fn bases_valid(cs: Seq<char>, bases: Seq<usize>) -> bool {
    forall|k: int| 0 <= k < bases.len() ==> base_valid(cs, #[trigger] bases[k] as int)
}

/// `payload`, read in the full base and written in each base of `bases` in
/// turn, first to last.
pub open spec fn encrypt_chain(cs: Seq<char>, payload: Seq<char>, bases: Seq<usize>) -> Seq<char>
    decreases bases.len(),
{
    if bases.len() == 0 {
        payload
    } else {
        converted(cs, encrypt_chain(cs, payload, bases.drop_last()), cs.len(), bases.last() as nat)
    }
}

/// `payload`, read in each base of `bases` in turn, last to first, and
/// written in the full base; refused at the first step whose input is not a
/// numeral of that step's base.
pub open spec fn decrypt_chain(cs: Seq<char>, payload: Seq<char>, bases: Seq<usize>) -> Result<
    Seq<char>,
    Failure,
>
    decreases bases.len(),
{
    if bases.len() == 0 {
        Ok(payload)
    } else if !valid_payload(cs, payload, bases.last() as int) {
        Err(Failure::InvalidSymbol { payload, base: bases.last() as nat })
    } else {
        decrypt_chain(cs, converted(cs, payload, bases.last() as nat, cs.len()), bases.drop_last())
    }
}

/// The checks made before any conversion: every base valid, then the input
/// written in the full alphabet.
pub open spec fn admitted(cs: Seq<char>, payload: Seq<char>, bases: Seq<usize>) -> Result<
    Seq<char>,
    Failure,
> {
    if !bases_valid(cs, bases) {
        Err(Failure::InvalidBase)
    } else if !valid_payload(cs, payload, cs.len() as int) {
        Err(Failure::InvalidSymbol { payload, base: cs.len() })
    } else {
        Ok(payload)
    }
}

pub open spec fn encrypted(cs: Seq<char>, payload: Seq<char>, bases: Seq<usize>) -> Result<
    Seq<char>,
    Failure,
> {
    match admitted(cs, payload, bases) {
        Ok(p) => Ok(encrypt_chain(cs, p, bases)),
        Err(f) => Err(f),
    }
}

pub open spec fn decrypted(cs: Seq<char>, payload: Seq<char>, bases: Seq<usize>) -> Result<
    Seq<char>,
    Failure,
> {
    match admitted(cs, payload, bases) {
        Ok(p) => decrypt_chain(cs, p, bases),
        Err(f) => Err(f),
    }
}

/// Reading back, last base first, what `encrypt_chain` wrote gives the
/// payload again.
pub proof fn lemma_chain_round_trip(cs: Seq<char>, payload: Seq<char>, bases: Seq<usize>)
    requires
        distinct(cs),
        cs.len() >= 2,
        valid_payload(cs, payload, cs.len() as int),
        bases_valid(cs, bases),
        bases.len() == 0 || canonical(cs, payload),
    ensures
        decrypt_chain(cs, encrypt_chain(cs, payload, bases), bases) == Ok::<Seq<char>, Failure>(
            payload,
        ),
        valid_payload(cs, encrypt_chain(cs, payload, bases), cs.len() as int),
    decreases bases.len(),
{
    if bases.len() > 0 {
        let rest = bases.drop_last();
        let base = bases.last();
        assert(base_valid(cs, bases[bases.len() - 1] as int));
        assert forall|k: int| 0 <= k < rest.len() implies base_valid(
            cs,
            #[trigger] rest[k] as int,
        ) by {
            assert(base_valid(cs, bases[k] as int));
        }
        lemma_chain_round_trip(cs, payload, rest);
        let q = encrypt_chain(cs, payload, rest);
        if rest.len() > 0 {
            lemma_converted_shape(
                cs,
                encrypt_chain(cs, payload, rest.drop_last()),
                cs.len(),
                rest.last() as nat,
            );
        }
        lemma_converted_shape(cs, q, cs.len(), base as nat);
        lemma_convert_back(cs, q, base as nat);
    }
}

/// Checks every base before any conversion, so that a refused sequence
/// leaves nothing half done.
fn check_bases(bases: &Vec<usize>, charset: &Charset) -> (r: bool)
    ensures
        r == bases_valid(charset@, bases@),
{
    let mut k: usize = 0;
    while k < bases.len()
        invariant
            k <= bases@.len(),
            forall|m: int| 0 <= m < k ==> base_valid(charset@, #[trigger] bases@[m] as int),
        decreases bases@.len() - k,
    {
        if !validate_base(bases[k], charset) {
            return false;
        }
        k += 1;
    }
    true
}

/// Writes `input` (a numeral of the full alphabet) in each base of `bases`
/// in turn, first to last, each step reading its input in the full base.
pub fn encrypt(input: &str, bases: &Vec<usize>, charset: &Charset) -> (r: Result<
    String,
    CipherError,
>)
    ensures
        outcome(r) == encrypted(charset@, input@, bases@),
{
    if !check_bases(bases, charset) {
        return Err(CipherError::InvalidBase);
    }
    let full = charset.len();
    if !validate_input(input, full, charset) {
        return Err(CipherError::InvalidSymbol { payload: String::from_str(input), base: full });
    }
    let mut current = String::from_str(input);
    let mut k: usize = 0;
    while k < bases.len()
        invariant
            full == charset@.len(),
            k <= bases@.len(),
            bases_valid(charset@, bases@),
            valid_payload(charset@, input@, full as int),
            current@ == encrypt_chain(charset@, input@, bases@.subrange(0, k as int)),
            valid_payload(charset@, current@, full as int),
        decreases bases@.len() - k,
    {
        let base = bases[k];
        assert(base_valid(charset@, bases@[k as int] as int));
        let next = convert_base(current.as_str(), full, base, charset);
        proof {
            lemma_converted_shape(charset@, current@, full as nat, base as nat);
            assert(bases@.subrange(0, k as int + 1).drop_last() =~= bases@.subrange(0, k as int));
        }
        current = next;
        k += 1;
    }
    assert(bases@.subrange(0, bases@.len() as int) =~= bases@);
    Ok(current)
}

/// Undoes `encrypt`: reads the input in each base of `bases` in turn, last
/// to first, and writes it in the full base.
pub fn decrypt(input: &str, bases: &Vec<usize>, charset: &Charset) -> (r: Result<
    String,
    CipherError,
>)
    ensures
        outcome(r) == decrypted(charset@, input@, bases@),
{
    if !check_bases(bases, charset) {
        return Err(CipherError::InvalidBase);
    }
    let full = charset.len();
    if !validate_input(input, full, charset) {
        return Err(CipherError::InvalidSymbol { payload: String::from_str(input), base: full });
    }
    let mut current = String::from_str(input);
    let mut k: usize = bases.len();
    assert(bases@.subrange(0, k as int) =~= bases@);
    while k > 0
        invariant
            full == charset@.len(),
            k <= bases@.len(),
            bases_valid(charset@, bases@),
            valid_payload(charset@, input@, full as int),
            decrypt_chain(charset@, input@, bases@) == decrypt_chain(
                charset@,
                current@,
                bases@.subrange(0, k as int),
            ),
        decreases k,
    {
        let base = bases[k - 1];
        assert(base_valid(charset@, bases@[k - 1] as int));
        let ghost prefix = bases@.subrange(0, k as int);
        assert(prefix.drop_last() =~= bases@.subrange(0, k - 1));
        assert(prefix.last() == base);
        if !validate_input(current.as_str(), base, charset) {
            return Err(CipherError::InvalidSymbol { payload: current, base });
        }
        current = convert_base(current.as_str(), base, full, charset);
        k -= 1;
    }
    proof {
        assert(bases@.subrange(0, bases@.len() as int) =~= bases@);
    }
    Ok(current)
}

} // verus!
