use crate::bignum::{big_add, big_div, big_is_zero, big_mul, big_rem, big_to_usize, big_zero, BigNat};
use crate::charset::{base_valid, distinct, index_of, is_digit, lemma_index_of, valid_payload, Charset};
use vstd::prelude::*;

verus! {

/// The digit values of the symbols of `payload`, most significant first.
pub open spec fn digit_values(cs: Seq<char>, payload: Seq<char>) -> Seq<nat> {
    payload.map_values(|c: char| index_of(cs, c) as nat)
}

/// The number that the digits `ds`, most significant first, write in `base`.
pub open spec fn horner(ds: Seq<nat>, base: nat) -> nat
    decreases ds.len(),
{
    if ds.len() == 0 {
        0
    } else {
        (horner(ds.drop_last(), base) * base + ds.last()) as nat
    }
}

/// The shortest digits, most significant first, that write `v` in `base`;
/// zero is written as the single digit 0.
pub open spec fn render(v: nat, base: nat) -> Seq<nat>
    decreases v,
    via render_decreases
{
    if base < 2 || v < base {
        seq![v]
    } else {
        render(v / base, base).push(v % base)
    }
}

#[via_fn]
proof fn render_decreases(v: nat, base: nat) {
    if !(base < 2 || v < base) {
        assert(v / base < v) by (nonlinear_arith)
            requires
                base >= 2,
                v >= base,
        ;
    }
}

/// The symbols of `cs` that write the digits `ds`.
pub open spec fn symbols(cs: Seq<char>, ds: Seq<nat>) -> Seq<char> {
    ds.map_values(|d: nat| cs[d as int])
}

/// The number that `payload` writes in `base` over the alphabet `cs`.
pub open spec fn payload_value(cs: Seq<char>, payload: Seq<char>, base: nat) -> nat {
    horner(digit_values(cs, payload), base)
}

/// `payload`, read in `base_from`, written again in `base_to`.
pub open spec fn converted(cs: Seq<char>, payload: Seq<char>, base_from: nat, base_to: nat) -> Seq<
    char,
> {
    symbols(cs, render(payload_value(cs, payload, base_from), base_to))
}

/// Every digit of `render(v, base)` is below `base`; the leading digit is
/// zero only when `v` is, and then it is the only digit.
pub proof fn lemma_render_shape(v: nat, base: nat)
    requires
        base >= 2,
    ensures
        render(v, base).len() >= 1,
        forall|k: int| 0 <= k < render(v, base).len() ==> #[trigger] render(v, base)[k] < base,
        v >= 1 ==> render(v, base)[0] != 0,
        v == 0 ==> render(v, base) == seq![0nat],
    decreases v,
{
    if v >= base {
        assert(1 <= v / base < v) by (nonlinear_arith)
            requires
                base >= 2,
                v >= base,
        ;
        assert(v % base < base) by (nonlinear_arith)
            requires
                base >= 2,
        ;
        lemma_render_shape(v / base, base);
    }
}

/// What `converted` writes is a numeral of `base_to` with no leading zero
/// digit but for zero itself.
pub proof fn lemma_converted_shape(cs: Seq<char>, payload: Seq<char>, base_from: nat, base_to: nat)
    requires
        2 <= base_to <= cs.len(),
    ensures
        valid_payload(cs, converted(cs, payload, base_from, base_to), base_to as int),
        valid_payload(cs, converted(cs, payload, base_from, base_to), cs.len() as int),
        converted(cs, payload, base_from, base_to).len() >= 1,
        distinct(cs) ==> canonical(cs, converted(cs, payload, base_from, base_to)),
{
    let ds = render(payload_value(cs, payload, base_from), base_to);
    lemma_render_shape(payload_value(cs, payload, base_from), base_to);
    let w = converted(cs, payload, base_from, base_to);
    assert forall|k: int| 0 <= k < w.len() implies is_digit(cs, #[trigger] w[k], base_to as int) by {
        assert(ds[k] < base_to);
        assert(w[k] == cs[ds[k] as int]);
    }
    assert forall|k: int| 0 <= k < w.len() implies is_digit(cs, #[trigger] w[k], cs.len() as int) by {
        assert(is_digit(cs, w[k], base_to as int));
    }
    if distinct(cs) && w.len() > 1 {
        assert(ds[0] != 0);
        assert(w[0] == cs[ds[0] as int]);
    }
}

/// `payload` is written with at least one symbol and, when with more than
/// one, does not start with the symbol of the digit 0.
pub open spec fn canonical(cs: Seq<char>, payload: Seq<char>) -> bool {
    payload.len() >= 1 && (payload.len() == 1 || payload[0] != cs[0])
}

/// Reading back what `render` wrote gives the number again.
pub proof fn lemma_horner_render(v: nat, base: nat)
    requires
        base >= 2,
    ensures
        horner(render(v, base), base) == v,
    decreases v,
{
    if v >= base {
        assert(v / base < v) by (nonlinear_arith)
            requires
                base >= 2,
                v >= base,
        ;
        lemma_horner_render(v / base, base);
        let ds = render(v / base, base).push(v % base);
        assert(ds.drop_last() =~= render(v / base, base));
        assert((v / base) * base + v % base == v) by (nonlinear_arith)
            requires
                base >= 2,
        ;
    } else {
        let ds = render(v, base);
        assert(ds =~= seq![v]);
        assert(ds.drop_last() =~= Seq::<nat>::empty());
        assert(horner(ds.drop_last(), base) == 0);
        assert(horner(ds.drop_last(), base) * base == 0) by (nonlinear_arith)
            requires
                horner(ds.drop_last(), base) == 0,
        ;
    }
}

/// A number written with a nonzero leading digit is at least one.
proof fn lemma_horner_positive(ds: Seq<nat>, base: nat)
    requires
        base >= 1,
        ds.len() >= 1,
        ds[0] >= 1,
    ensures
        horner(ds, base) >= 1,
    decreases ds.len(),
{
    if ds.len() > 1 {
        lemma_horner_positive(ds.drop_last(), base);
        let h = horner(ds.drop_last(), base);
        assert(h * base + ds.last() >= 1) by (nonlinear_arith)
            requires
                h >= 1,
                base >= 1,
        ;
    }
}

/// Digits below `base` with no leading zero (but for a lone zero) are what
/// `render` writes for their value.
pub proof fn lemma_render_horner(ds: Seq<nat>, base: nat)
    requires
        base >= 2,
        ds.len() >= 1,
        forall|k: int| 0 <= k < ds.len() ==> #[trigger] ds[k] < base,
        ds.len() == 1 || ds[0] != 0,
    ensures
        render(horner(ds, base), base) == ds,
    decreases ds.len(),
{
    let rest = ds.drop_last();
    if ds.len() == 1 {
        assert(rest =~= Seq::<nat>::empty());
        assert(horner(rest, base) == 0);
        assert(horner(rest, base) * base == 0) by (nonlinear_arith)
            requires
                horner(rest, base) == 0,
        ;
        assert(horner(ds, base) == ds[0]);
        assert(render(horner(ds, base), base) =~= ds);
    } else {
        lemma_horner_positive(rest, base);
        lemma_render_horner(rest, base);
        let h = horner(rest, base);
        let v = horner(ds, base);
        assert(v >= base) by (nonlinear_arith)
            requires
                v == h * base + ds.last(),
                h >= 1,
        ;
        vstd::arithmetic::div_mod::lemma_fundamental_div_mod_converse(
            v as int,
            base as int,
            h as int,
            ds.last() as int,
        );
        assert(rest.push(ds.last()) =~= ds);
    }
}

/// In a duplicate-free alphabet, the symbols of digits below its size read
/// back as those digits.
pub proof fn lemma_digits_of_symbols(cs: Seq<char>, ds: Seq<nat>)
    requires
        distinct(cs),
        forall|k: int| 0 <= k < ds.len() ==> #[trigger] ds[k] < cs.len(),
    ensures
        digit_values(cs, symbols(cs, ds)) == ds,
{
    assert forall|k: int| 0 <= k < ds.len() implies #[trigger] digit_values(
        cs,
        symbols(cs, ds),
    )[k] == ds[k] by {
        lemma_index_of(cs, ds[k] as int);
    }
    assert(digit_values(cs, symbols(cs, ds)) =~= ds);
}

/// A numeral of the full alphabet is the symbols of its own digit values,
/// each below the alphabet's size.
pub proof fn lemma_symbols_of_digits(cs: Seq<char>, payload: Seq<char>)
    requires
        valid_payload(cs, payload, cs.len() as int),
    ensures
        symbols(cs, digit_values(cs, payload)) == payload,
        forall|k: int|
            0 <= k < payload.len() ==> #[trigger] digit_values(cs, payload)[k] < cs.len(),
{
    assert forall|k: int| 0 <= k < payload.len() implies #[trigger] digit_values(cs, payload)[k]
        < cs.len() && symbols(cs, digit_values(cs, payload))[k] == payload[k] by {
        assert(is_digit(cs, payload[k], cs.len() as int));
    }
    assert(symbols(cs, digit_values(cs, payload)) =~= payload);
}

/// Writing a canonical numeral of the full alphabet in a smaller base and
/// reading it back gives it again.
pub proof fn lemma_convert_back(cs: Seq<char>, payload: Seq<char>, base: nat)
    requires
        distinct(cs),
        2 <= base <= cs.len(),
        valid_payload(cs, payload, cs.len() as int),
        canonical(cs, payload),
    ensures
        converted(cs, converted(cs, payload, cs.len(), base), base, cs.len()) == payload,
{
    let n = cs.len();
    let ds = digit_values(cs, payload);
    let v = horner(ds, n);
    let w = converted(cs, payload, n, base);
    lemma_render_shape(v, base);
    assert forall|k: int| 0 <= k < render(v, base).len() implies #[trigger] render(v, base)[k]
        < cs.len() by {
        assert(render(v, base)[k] < base);
    }
    lemma_digits_of_symbols(cs, render(v, base));
    lemma_horner_render(v, base);
    lemma_symbols_of_digits(cs, payload);
    if payload.len() > 1 && ds[0] == 0 {
        lemma_index_of(cs, 0);
        assert(cs[index_of(cs, payload[0])] == payload[0]) by {
            assert(is_digit(cs, payload[0], cs.len() as int));
        }
    }
    lemma_render_horner(ds, n);
}

/// Relies on `String: FromIterator<char>`: the string of the given symbols,
/// in order.
#[verifier::external_body]
fn string_from_symbols(v: &Vec<char>) -> (r: String)
    ensures
        r@ == v@,
{
    v.iter().collect()
}

/// Reads `input_string` as a numeral of `base_from` over the alphabet and
/// writes the same number in `base_to`, without leading zero digits. An empty
/// input, or one that writes zero, gives the single symbol of the digit 0.
pub fn convert_base(input_string: &str, base_from: usize, base_to: usize, charset: &Charset) -> (r:
    String)
    requires
        base_valid(charset@, base_from as int),
        base_valid(charset@, base_to as int),
        valid_payload(charset@, input_string@, base_from as int),
    ensures
        r@ == converted(charset@, input_string@, base_from as nat, base_to as nat),
        r@.len() >= 1,
{
    let ghost cs = charset@;
    let n = input_string.unicode_len();
    let mut acc: BigNat = big_zero();
    let mut i: usize = 0;
    while i < n
        invariant
            cs == charset@,
            n == input_string@.len(),
            i <= n,
            valid_payload(cs, input_string@, base_from as int),
            acc.value() == payload_value(cs, input_string@.subrange(0, i as int), base_from as nat),
        decreases n - i,
    {
        let c = input_string.get_char(i);
        assert(is_digit(cs, input_string@[i as int], base_from as int));
        let v = charset.symbol_to_value(c).unwrap();
        acc = big_add(&big_mul(&acc, base_from), v);
        proof {
            let prev = input_string@.subrange(0, i as int);
            let next = input_string@.subrange(0, i as int + 1);
            assert(digit_values(cs, next).drop_last() =~= digit_values(cs, prev));
        }
        i += 1;
    }
    assert(input_string@.subrange(0, n as int) =~= input_string@);
    let ghost v0 = acc.value();
    let mut out: Vec<char> = Vec::new();
    if big_is_zero(&acc) {
        out.push(charset.value_to_symbol(0));
        assert(out@ =~= symbols(cs, render(v0, base_to as nat)));
        return string_from_symbols(&out);
    }
    let ghost mut ds: Seq<nat> = Seq::empty();
    while !big_is_zero(&acc)
        invariant
            cs == charset@,
            base_valid(cs, base_to as int),
            out@ =~= symbols(cs, ds),
            acc.value() > 0 ==> render(v0, base_to as nat) == render(acc.value(), base_to as nat)
                + ds,
            acc.value() == 0 ==> render(v0, base_to as nat) == ds,
            acc.value() == 0 ==> ds.len() >= 1,
        decreases acc.value(),
    {
        let ghost old_v = acc.value();
        let r = big_to_usize(&big_rem(&acc, base_to)).unwrap();
        out.insert(0, charset.value_to_symbol(r));
        acc = big_div(&acc, base_to);
        proof {
            let b = base_to as nat;
            let old_ds = ds;
            ds = seq![r as nat] + ds;
            if old_v >= b {
                assert(old_v / b >= 1) by (nonlinear_arith)
                    requires
                        old_v >= b,
                        b >= 2,
                ;
                assert(render(old_v, b) == render(old_v / b, b).push(old_v % b));
                assert(render(old_v / b, b).push(old_v % b) + old_ds =~= render(old_v / b, b)
                    + ds);
            } else {
                assert(old_v / b == 0) by (nonlinear_arith)
                    requires
                        old_v < b,
                        b >= 2,
                ;
                assert(old_v % b == old_v) by (nonlinear_arith)
                    requires
                        old_v < b,
                        b >= 2,
                ;
                assert(render(old_v, b) + old_ds =~= ds);
            }
        }
    }
    string_from_symbols(&out)
}

} // verus!
