use vstd::prelude::*;
use vstd::utf8::{char_is_scalar, char_u32_cast, is_scalar};
use crate::cipher::{Cipher, CipherError};
use crate::codec::{lemma_numeral, numeral};
use crate::lemmas::{
    lemma_backward_suffix, lemma_decrypt_encrypt, lemma_encrypt_over, lemma_forward_prefix,
};
use crate::model::{decrypt_once_spec, decrypt_spec, encrypt_once_spec, encrypt_spec, over};
use crate::text::{decrypt_text_spec, encrypt_text_spec, is_white_space, lemma_text_round_trip};
use crate::uniaz::{codec_alphabet, decode_token, decoded_value, encrypt_char_spec, ROUNDS};

verus! {

/// For every digit sequence over the alphabet and every pass count `n`, `n` backward
/// passes restore what `n` forward passes produced.
pub proof fn law_round_trip(cipher: Cipher, d: Seq<char>, n: nat)
    requires
        cipher.wf(),
        over(cipher@, d),
    ensures
        decrypt_spec(cipher@, encrypt_spec(cipher@, d, n), n) == d,
{
    cipher.lemma_valid();
    lemma_decrypt_encrypt(cipher@, d, n);
}

/// A single pass, in either direction, keeps the length of the sequence and uses only
/// symbols of the alphabet.
pub proof fn law_length_preserved(cipher: Cipher, d: Seq<char>)
    requires
        cipher.wf(),
        over(cipher@, d),
    ensures
        encrypt_once_spec(cipher@, d).len() == d.len(),
        over(cipher@, encrypt_once_spec(cipher@, d)),
        decrypt_once_spec(cipher@, d).len() == d.len(),
        over(cipher@, decrypt_once_spec(cipher@, d)),
{
    cipher.lemma_valid();
    lemma_forward_prefix(cipher@, d, d.len() as int);
    lemma_backward_suffix(cipher@, d, 0);
}

/// The passes depend on nothing but the alphabet and the input: equal inputs give equal
/// outputs.
pub proof fn law_deterministic(c1: Cipher, c2: Cipher, d1: Seq<char>, d2: Seq<char>, n: nat)
    requires
        c1@ == c2@,
        d1 == d2,
    ensures
        encrypt_spec(c1@, d1, n) == encrypt_spec(c2@, d2, n),
        decrypt_spec(c1@, d1, n) == decrypt_spec(c2@, d2, n),
{
}

/// For every codec alphabet and every character, the encoded form is a string over the
/// alphabet that decodes to the character's own code point, which is a Unicode scalar
/// value: decoding what was encoded gives the character back.
pub proof fn law_char_round_trip(a: Seq<char>, c: char)
    requires
        codec_alphabet(a),
    ensures
        over(a, encrypt_char_spec(a, c)),
        decoded_value(a, encrypt_char_spec(a, c)) == c as u32,
        is_scalar(c as u32),
        decode_token(a, encrypt_char_spec(a, c)) == Ok::<char, CipherError>(c),
{
    let v = c as u32 as nat;
    lemma_numeral(v, a);
    lemma_encrypt_over(a, numeral(v, a), ROUNDS as nat);
    lemma_decrypt_encrypt(a, numeral(v, a), ROUNDS as nat);
    char_is_scalar(c);
    char_u32_cast(c, c as u32);
}

/// For every text, decoding its encoded form gives the text back, over any codec alphabet
/// without whitespace symbols: each character becomes one token free of whitespace, and
/// spaces in the text are characters like any other.
pub proof fn law_text_round_trip(a: Seq<char>, s: Seq<char>)
    requires
        codec_alphabet(a),
        forall|i: int| 0 <= i < a.len() ==> !is_white_space(#[trigger] a[i]),
    ensures
        decrypt_text_spec(a, encrypt_text_spec(a, s)) == Ok::<Seq<char>, CipherError>(s),
{
    lemma_text_round_trip(a, s);
}

} // verus!
