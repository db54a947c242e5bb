use crate::charset::{base_valid, distinct, is_digit, valid_payload, Charset};
use crate::cipher::{bases_valid, decrypted, encrypted, lemma_chain_round_trip, Failure};
use crate::numeral::{canonical, converted, render};
use vstd::prelude::*;

verus! {

/// Decrypting what `encrypt` made of a numeral of the full alphabet, with the
/// same valid bases, gives that numeral back, provided it has no leading
/// zero symbol (a lone zero is fine) or the base sequence is empty.
pub proof fn lemma_round_trip(charset: Charset, payload: Seq<char>, bases: Seq<usize>)
    requires
        charset.wf(),
        valid_payload(charset@, payload, charset@.len() as int),
        bases_valid(charset@, bases),
        bases.len() == 0 || canonical(charset@, payload),
    ensures
        encrypted(charset@, payload, bases) is Ok,
        decrypted(charset@, encrypted(charset@, payload, bases)->Ok_0, bases) == Ok::<
            Seq<char>,
            Failure,
        >(payload),
{
    lemma_chain_round_trip(charset@, payload, bases);
}

/// Every numeral of a base is also a numeral of the full base.
pub proof fn lemma_alphabet_containment(charset: Charset, payload: Seq<char>, base: int)
    requires
        charset.wf(),
        base_valid(charset@, base),
        valid_payload(charset@, payload, base),
    ensures
        valid_payload(charset@, payload, charset@.len() as int),
{
    assert forall|k: int| 0 <= k < payload.len() implies is_digit(
        charset@,
        #[trigger] payload[k],
        charset@.len() as int,
    ) by {
        assert(is_digit(charset@, payload[k], base));
    }
}

/// The empty numeral converts to the lone symbol of the digit 0.
pub proof fn lemma_empty_converts_to_zero(charset: Charset, base_from: nat, base_to: nat)
    requires
        charset.wf(),
        base_valid(charset@, base_from as int),
        base_valid(charset@, base_to as int),
    ensures
        converted(charset@, Seq::<char>::empty(), base_from, base_to) == seq![charset@[0]],
{
    assert(render(0, base_to) == seq![0nat]);
    assert(converted(charset@, Seq::<char>::empty(), base_from, base_to) =~= seq![charset@[0]]);
}

/// The valid bases run from 2 to the alphabet's size, both ends included.
pub proof fn lemma_base_range(charset: Charset)
    requires
        charset.wf(),
    ensures
        !base_valid(charset@, 1),
        !base_valid(charset@, (charset@.len() + 1) as int),
        base_valid(charset@, 2),
        base_valid(charset@, charset@.len() as int),
{
}

/// A payload holding a symbol at position `base` or later of the alphabet is
/// no numeral of `base`, though it is one of a larger base.
pub proof fn lemma_foreign_symbol_rejected(
    charset: Charset,
    payload: Seq<char>,
    base: int,
    k: int,
    position: int,
)
    requires
        charset.wf(),
        0 <= k < payload.len(),
        base <= position < charset@.len(),
        payload[k] == charset@[position],
    ensures
        !valid_payload(charset@, payload, base),
{
    if valid_payload(charset@, payload, base) {
        assert(is_digit(charset@, payload[k], base));
        let i = choose|i: int| 0 <= i < base && i < charset@.len() && charset@[i] == payload[k];
        assert(distinct(charset@));
        assert(charset@[i] == charset@[position]);
    }
}

/// With no bases, both directions hand a numeral of the full alphabet back
/// unchanged.
pub proof fn lemma_empty_sequence_identity(charset: Charset, payload: Seq<char>)
    requires
        charset.wf(),
        valid_payload(charset@, payload, charset@.len() as int),
    ensures
        encrypted(charset@, payload, Seq::<usize>::empty()) == Ok::<Seq<char>, Failure>(payload),
        decrypted(charset@, payload, Seq::<usize>::empty()) == Ok::<Seq<char>, Failure>(payload),
{
}

} // verus!
