use vstd::prelude::*;
use vstd::utf8::{char_u32_cast, is_scalar};
use crate::cipher::{chars_of, string_of, valid_alphabet, Cipher, CipherError};
use crate::codec::{
    char_of, convert_base, decimal_digits, decimal_of, lemma_numeral, numeral, parse_decimal,
    value,
};
use crate::lemmas::lemma_decrypt_over;
use crate::model::{decrypt_spec, encrypt_spec, over};

verus! {

/// How many passes of the cipher each character goes through.
pub const ROUNDS: usize = 2;

/// An alphabet that the codec can write numbers in: a valid alphabet of at least two
/// symbols.
pub open spec fn codec_alphabet(a: Seq<char>) -> bool {
    valid_alphabet(a) && a.len() >= 2
}

/// The encoded form of `c`: its code point written in the base of `a`, then put through
/// the forward passes.
pub open spec fn encrypt_char_spec(a: Seq<char>, c: char) -> Seq<char> {
    encrypt_spec(a, numeral(c as u32 as nat, a), ROUNDS as nat)
}

/// The number that the encoded form `s` stands for: `s` put through the backward passes,
/// read in the base of `a`.
pub open spec fn decoded_value(a: Seq<char>, s: Seq<char>) -> nat {
    value(decrypt_spec(a, s, ROUNDS as nat), a)
}

/// The character that the encoded form `t` decodes to, or the first reason it does not.
pub open spec fn decode_token(a: Seq<char>, t: Seq<char>) -> Result<char, CipherError> {
    if !over(a, t) {
        Err(CipherError::InvalidCipherText)
    } else if decoded_value(a, t) > u32::MAX || !is_scalar(decoded_value(a, t) as u32) {
        Err(CipherError::InvalidCodepoint)
    } else {
        Ok((decoded_value(a, t) as u32) as char)
    }
}

/// The 26 lowercase Latin letters: the default alphabet of the encoded form.
pub open spec fn latin_letters() -> Seq<char> {
    seq![
        'a', 'b', 'c', 'd', 'e', 'f', 'g', 'h', 'i', 'j', 'k', 'l', 'm',
        'n', 'o', 'p', 'q', 'r', 's', 't', 'u', 'v', 'w', 'x', 'y', 'z',
    ]
}

fn latin_table() -> (r: &'static str)
    ensures
        r@ == latin_letters(),
{
    proof {
        reveal_strlit("abcdefghijklmnopqrstuvwxyz");
    }
    let r = "abcdefghijklmnopqrstuvwxyz";
    assert(r@ =~= latin_letters());
    r
}

fn decimal_table() -> (r: &'static str)
    ensures
        r@ == decimal_digits(),
{
    proof {
        reveal_strlit("0123456789");
    }
    let r = "0123456789";
    assert(r@ =~= decimal_digits());
    r
}

/// The Latin letters are a codec alphabet; the decimal digits are ten distinct symbols.
pub proof fn lemma_tables()
    ensures
        codec_alphabet(latin_letters()),
        forall|i: int|
            0 <= i < latin_letters().len() ==> (#[trigger] latin_letters()[i]) as u32 == 'a'
                as u32 + i,
        decimal_digits().no_duplicates(),
        decimal_digits().len() == 10,
{
    let l = latin_letters();
    assert forall|i: int| 0 <= i < l.len() implies (#[trigger] l[i]) as u32 <= 'z' as u32 && (
    l[i] as u32) >= 'a' as u32 && l[i] as u32 == 'a' as u32 + i by {}
    assert forall|i: int, j: int| 0 <= i < l.len() && 0 <= j < l.len() && i != j implies l[i]
        != l[j] by {
        assert(l[i] as u32 == 'a' as u32 + i);
        assert(l[j] as u32 == 'a' as u32 + j);
    }
    let d = decimal_digits();
    assert forall|i: int| 0 <= i < d.len() implies (#[trigger] d[i]) as u32 == '0' as u32 + i by {}
    assert forall|i: int, j: int| 0 <= i < d.len() && 0 <= j < d.len() && i != j implies d[i]
        != d[j] by {
        assert(d[i] as u32 == '0' as u32 + i);
        assert(d[j] as u32 == '0' as u32 + j);
    }
}

/// Encodes any Unicode character as a short string over a small alphabet, and back.
pub struct UniAz {
    alphabet: String,
    cipher: Cipher,
}

impl View for UniAz {
    type V = Seq<char>;

    closed spec fn view(&self) -> Seq<char> {
        self.cipher@
    }
}

impl UniAz {
    /// The codec's alphabet is the cipher's, and has at least two symbols.
    pub closed spec fn wf(&self) -> bool {
        &&& self.cipher.wf()
        &&& self.alphabet@ == self.cipher@
        &&& codec_alphabet(self@)
    }

    /// A well-formed codec has a codec alphabet.
    pub proof fn lemma_valid(&self)
        requires
            self.wf(),
        ensures
            codec_alphabet(self@),
    {
    }

    /// A codec over the 26 lowercase Latin letters.
    pub fn new() -> (r: UniAz)
        ensures
            r.wf(),
            r@ == latin_letters(),
    {
        proof {
            lemma_tables();
        }
        UniAz::with_alphabet(latin_table()).unwrap()
    }

    /// A codec over the symbols of `alphabet`, in order. It fails as an alphabet of the
    /// cipher fails, and on a single symbol, in whose base no number but zero is written.
    pub fn with_alphabet(alphabet: &str) -> (r: Result<UniAz, CipherError>)
        ensures
            !valid_alphabet(alphabet@) ==> (r matches Err(e) && Cipher::new_error(alphabet@, e)),
            valid_alphabet(alphabet@) && alphabet@.len() == 1 ==> r == Err::<UniAz, CipherError>(
                CipherError::UnaryAlphabet,
            ),
            codec_alphabet(alphabet@) ==> (r matches Ok(u) && u.wf() && u@ == alphabet@),
    {
        let cipher = Cipher::new(alphabet)?;
        if cipher.radix() < 2 {
            return Err(CipherError::UnaryAlphabet);
        }
        Ok(UniAz { alphabet: string_of(chars_of(alphabet)), cipher })
    }

    /// Encodes one character: its code point in the alphabet's base, then two forward
    /// passes.
    pub fn encrypt(&self, plain: &char) -> (r: String)
        requires
            self.wf(),
        ensures
            r@ == encrypt_char_spec(self@, *plain),
    {
        proof {
            lemma_tables();
            lemma_numeral(*plain as u32 as nat, decimal_digits());
            lemma_numeral(*plain as u32 as nat, self@);
        }
        let decimal = decimal_of(*plain as u32);
        let digits = convert_base(decimal.as_str(), decimal_table(), self.alphabet.as_str()).unwrap();
        self.cipher.encrypt(digits.as_str(), ROUNDS).unwrap()
    }

    /// Decodes one encoded character: two backward passes, then the number read back as a
    /// code point.
    pub fn decrypt(&self, cipher: &str) -> (r: Result<char, CipherError>)
        requires
            self.wf(),
        ensures
            r == decode_token(self@, cipher@),
    {
        proof {
            lemma_tables();
        }
        let digits = match self.cipher.decrypt(cipher, ROUNDS) {
            Ok(d) => d,
            Err(_) => {
                return Err(CipherError::InvalidCipherText);
            },
        };
        proof {
            lemma_decrypt_over(self@, cipher@, ROUNDS as nat);
            lemma_numeral(value(digits@, self@), decimal_digits());
        }
        let decimal = match convert_base(digits.as_str(), self.alphabet.as_str(), decimal_table()) {
            Ok(s) => s,
            Err(_) => {
                return Err(CipherError::InvalidToken);
            },
        };
        let v = match parse_decimal(decimal.as_str()) {
            Some(v) => v,
            None => {
                return Err(CipherError::InvalidCodepoint);
            },
        };
        match char_of(v) {
            Some(c) => {
                proof {
                    char_u32_cast(c, v);
                }
                Ok(c)
            },
            None => Err(CipherError::InvalidCodepoint),
        }
    }
}

} // verus!
