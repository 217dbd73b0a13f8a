use vstd::prelude::*;
use vstd::string::*;
use vstd::utf8::char_u32_cast;
use vstd::set_lib::{lemma_int_range, lemma_len_subset, set_int_range};
use crate::lemmas::{
    lemma_decrypt_over, lemma_encrypt_over, lemma_forward_prefix, lemma_backward_suffix,
    lemma_index_of_unique, lemma_permutation, lemma_position_frame, lemma_seed_frame,
    rearranges,
};
use crate::model::{
    backward_char, backward_suffix, decrypt_once_spec, decrypt_spec, encrypt_once_spec,
    encrypt_spec, forward_char, forward_prefix, horner, over, over_except, permutation_at, reversed,
    seed_mod, shuffle,
};

verus! {

/// Number of entries of the symbol lookup table: symbols are single-byte code points.
pub const TABLE_SIZE: usize = 256;

/// The code point of a symbol, as an integer.
pub open spec fn code(c: char) -> int {
    c as u32 as int
}

/// An alphabet is non-empty, holds single-byte symbols only, and has no repeated symbol.
pub open spec fn valid_alphabet(a: Seq<char>) -> bool {
    &&& a.len() >= 1
    &&& forall|i: int| 0 <= i < a.len() ==> code(#[trigger] a[i]) < TABLE_SIZE
    &&& a.no_duplicates()
}

/// Errors raised while building an alphabet, transforming a digit sequence, or decoding.
#[derive(Clone, Copy, Debug, PartialEq, Eq, Structural)]
pub enum CipherError {
    EmptyAlphabet,
    UnsupportedSymbolDomain,
    DuplicateSymbol,
    UnknownSymbol,
    InvalidCipherText,
    InvalidToken,
    InvalidCodepoint,
    UnaryAlphabet,
}

/// A substitution cipher over a fixed alphabet of single-byte symbols.
pub struct Cipher {
    alphabet: Vec<char>,
    radix: usize,
    val_map_array: Vec<usize>,
}

impl View for Cipher {
    type V = Seq<char>;

    closed spec fn view(&self) -> Seq<char> {
        self.alphabet@
    }
}

/// Relies on `String::from_iter`: the string holds the given characters, in order.
#[verifier::external_body]
pub(crate) fn string_of(chars: Vec<char>) -> (r: String)
    ensures
        r@ == chars@,
{
    String::from_iter(chars)
}

/// The characters of `s`, in order.
pub(crate) fn chars_of(s: &str) -> (r: Vec<char>)
    ensures
        r@ == s@,
{
    let n = s.unicode_len();
    let mut v: Vec<char> = Vec::new();
    let mut i: usize = 0;
    while i < n
        invariant
            n == s@.len(),
            i <= n,
            v@ == s@.subrange(0, i as int),
        decreases n - i,
    {
        v.push(s.get_char(i));
        i = i + 1;
    }
    assert(v@ == s@);
    v
}

/// The first position of `c` in `v`, if any.
fn position_of(v: &Vec<char>, c: char) -> (r: Option<usize>)
    ensures
        r matches Some(k) ==> k < v@.len() && v@[k as int] == c,
        r is None ==> !v@.contains(c),
{
    let mut k: usize = 0;
    while k < v.len()
        invariant
            k <= v@.len(),
            forall|j: int| 0 <= j < k ==> v@[j] != c,
        decreases v@.len() - k,
    {
        if v[k] == c {
            return Some(k);
        }
        k = k + 1;
    }
    None
}

/// `v` read from its end.
fn reverse_of(v: &Vec<char>) -> (r: Vec<char>)
    ensures
        r@ == reversed(v@),
{
    let mut out: Vec<char> = Vec::new();
    let mut k: usize = v.len();
    while k > 0
        invariant
            k <= v@.len(),
            out@.len() == v@.len() - k,
            forall|j: int| 0 <= j < out@.len() ==> out@[j] == v@[v@.len() - 1 - j],
        decreases k,
    {
        k = k - 1;
        out.push(v[k]);
    }
    assert(out@ == reversed(v@));
    out
}

impl Cipher {
    /// The lookup table maps each symbol's code to its position, and every other code
    /// to `usize::MAX`.
    pub closed spec fn wf(&self) -> bool {
        let a = self.alphabet@;
        let t = self.val_map_array@;
        &&& valid_alphabet(a)
        &&& a.len() <= TABLE_SIZE
        &&& self.radix == a.len()
        &&& t.len() == TABLE_SIZE
        &&& forall|i: int| 0 <= i < a.len() ==> t[code(#[trigger] a[i])] == i
        &&& forall|k: int|
            0 <= k < TABLE_SIZE ==> (#[trigger] t[k] == usize::MAX || (t[k] < a.len() && code(
                a[t[k] as int],
            ) == k))
    }

    /// The error that building an alphabet from `p` gives: the first of these that applies.
    pub open spec fn new_error(p: Seq<char>, e: CipherError) -> bool {
        if p.len() == 0 {
            e == CipherError::EmptyAlphabet
        } else if exists|i: int| 0 <= i < p.len() && code(#[trigger] p[i]) >= TABLE_SIZE {
            e == CipherError::UnsupportedSymbolDomain
        } else {
            e == CipherError::DuplicateSymbol
        }
    }

    /// Builds the alphabet from the characters of `pattern`, in order.
    pub fn new(pattern: &str) -> (r: Result<Cipher, CipherError>)
        ensures
            valid_alphabet(pattern@) <==> r is Ok,
            r matches Ok(c) ==> c.wf() && c@ == pattern@,
            r matches Err(e) ==> Cipher::new_error(pattern@, e),
    {
        let n = pattern.unicode_len();
        if n == 0 {
            return Err(CipherError::EmptyAlphabet);
        }
        let mut alphabet: Vec<char> = Vec::new();
        let mut i: usize = 0;
        while i < n
            invariant
                n == pattern@.len(),
                i <= n,
                alphabet@ == pattern@.subrange(0, i as int),
                forall|j: int| 0 <= j < i ==> code(#[trigger] pattern@[j]) < TABLE_SIZE,
            decreases n - i,
        {
            let c = pattern.get_char(i);
            if c as u32 as usize >= TABLE_SIZE {
                return Err(CipherError::UnsupportedSymbolDomain);
            }
            alphabet.push(c);
            i = i + 1;
        }
        assert(alphabet@ == pattern@);
        let mut table: Vec<usize> = Vec::new();
        let mut k: usize = 0;
        while k < TABLE_SIZE
            invariant
                k <= TABLE_SIZE,
                table@.len() == k,
                forall|j: int| 0 <= j < k ==> table@[j] == usize::MAX,
            decreases TABLE_SIZE - k,
        {
            table.push(usize::MAX);
            k = k + 1;
        }
        let mut i: usize = 0;
        while i < n
            invariant
                n == alphabet@.len(),
                alphabet@ == pattern@,
                forall|j: int| 0 <= j < n ==> code(#[trigger] alphabet@[j]) < TABLE_SIZE,
                i <= n,
                table@.len() == TABLE_SIZE,
                forall|j: int| 0 <= j < i ==> table@[code(#[trigger] alphabet@[j])] == j,
                forall|j1: int, j2: int| 0 <= j1 < j2 < i ==> alphabet@[j1] != alphabet@[j2],
                forall|k: int|
                    0 <= k < TABLE_SIZE ==> (#[trigger] table@[k] == usize::MAX || (table@[k] < i
                        && code(alphabet@[table@[k] as int]) == k)),
            decreases n - i,
        {
            let c = alphabet[i];
            let idx = c as u32 as usize;
            if table[idx] != usize::MAX {
                proof {
                    let j = table@[idx as int] as int;
                    assert(code(alphabet@[j]) == code(c));
                    char_u32_cast(alphabet@[j], c as u32);
                    char_u32_cast(c, c as u32);
                    assert(alphabet@[j] == alphabet@[i as int]);
                }
                return Err(CipherError::DuplicateSymbol);
            }
            table.set(idx, i);
            i = i + 1;
        }
        proof {
            let codes = Seq::new(n as nat, |j: int| code(alphabet@[j]));
            assert forall|j1: int, j2: int|
                0 <= j1 < codes.len() && 0 <= j2 < codes.len() && j1 != j2 implies codes[j1]
                != codes[j2] by {
                assert(table@[code(alphabet@[j1])] == j1);
                assert(table@[code(alphabet@[j2])] == j2);
            }
            codes.unique_seq_to_set();
            lemma_int_range(0, TABLE_SIZE as int);
            assert(codes.to_set().subset_of(set_int_range(0, TABLE_SIZE as int)));
            lemma_len_subset(codes.to_set(), set_int_range(0, TABLE_SIZE as int));
        }
        Ok(Cipher { alphabet, radix: n, val_map_array: table })
    }

    /// A well-formed cipher has a valid alphabet.
    pub proof fn lemma_valid(&self)
        requires
            self.wf(),
        ensures
            valid_alphabet(self@),
    {
    }

    /// The number of symbols of the alphabet.
    pub fn radix(&self) -> (r: usize)
        requires
            self.wf(),
        ensures
            r == self@.len(),
            1 <= r <= TABLE_SIZE,
    {
        self.radix
    }

    /// The value of symbol `c`: its position in the alphabet.
    pub fn char_to_val(&self, c: char) -> (r: Result<usize, CipherError>)
        requires
            self.wf(),
        ensures
            self@.contains(c) ==> r == Ok::<usize, CipherError>(self@.index_of(c) as usize),
            self@.contains(c) ==> 0 <= self@.index_of(c) < self@.len(),
            !self@.contains(c) ==> r == Err::<usize, CipherError>(CipherError::UnknownSymbol),
    {
        let idx = c as u32;
        if idx as usize >= TABLE_SIZE {
            return Err(CipherError::UnknownSymbol);
        }
        let v = self.val_map_array[idx as usize];
        if v == usize::MAX {
            proof {
                if self@.contains(c) {
                    let i = choose|i: int| 0 <= i < self@.len() && self@[i] == c;
                    assert(self.val_map_array@[code(self@[i])] == i);
                }
            }
            Err(CipherError::UnknownSymbol)
        } else {
            proof {
                let a = self.alphabet@;
                assert(code(a[v as int]) == code(c));
                char_u32_cast(a[v as int], c as u32);
                char_u32_cast(c, c as u32);
                lemma_index_of_unique(a, v as int);
            }
            Ok(v)
        }
    }

    /// Whether every symbol of `digits` belongs to the alphabet.
    fn check_symbols(&self, digits: &Vec<char>) -> (r: bool)
        requires
            self.wf(),
        ensures
            r == over(self@, digits@),
    {
        let mut i: usize = 0;
        while i < digits.len()
            invariant
                self.wf(),
                i <= digits@.len(),
                forall|j: int| 0 <= j < i ==> self@.contains(#[trigger] digits@[j]),
            decreases digits@.len() - i,
        {
            if self.char_to_val(digits[i]).is_err() {
                return false;
            }
            i = i + 1;
        }
        true
    }

    /// The seed of `digits` with position `skip_idx` left out, modulo `modulus`: the other
    /// symbols read as a numeral in the alphabet's base. It fails on a symbol outside the
    /// alphabet at any other position; the symbol at `skip_idx` is never looked up.
    fn get_seed_mod(&self, digits: &Vec<char>, skip_idx: usize, modulus: usize) -> (r: Result<
        usize,
        CipherError,
    >)
        requires
            self.wf(),
        ensures
            modulus == 0 ==> r == Ok::<usize, CipherError>(0),
            modulus > 0 ==> (r is Ok <==> over_except(self@, digits@, skip_idx as int)),
            r matches Ok(v) ==> v == seed_mod(self@, digits@, skip_idx as int, modulus as int),
            r matches Ok(v) ==> modulus > 0 ==> v < modulus,
            r matches Ok(v) ==> skip_idx < digits@.len() ==> forall|x: char|
                v == #[trigger] seed_mod(
                    self@,
                    digits@.update(skip_idx as int, x),
                    skip_idx as int,
                    modulus as int,
                ),
            r matches Err(e) ==> e == CipherError::UnknownSymbol,
    {
        if modulus == 0 {
            return Ok(0);
        }
        let mut remainder: usize = 0;
        let mut i: usize = 0;
        while i < digits.len()
            invariant
                self.wf(),
                0 < modulus,
                i <= digits@.len(),
                remainder == horner(self@, digits@, skip_idx as int, modulus as int, i as int),
                remainder < modulus,
                forall|j: int| 0 <= j < i && j != skip_idx ==> self@.contains(#[trigger] digits@[j]),
            decreases digits@.len() - i,
        {
            if i != skip_idx {
                match self.char_to_val(digits[i]) {
                    Ok(val) => {
                        assert((remainder as u128) * (self.radix as u128)
                            <= 0xFFFF_FFFF_FFFF_FFFFu128 * 256) by (nonlinear_arith)
                            requires
                                remainder <= 0xFFFF_FFFF_FFFF_FFFFu64,
                                self.radix <= 256,
                        ;
                        let next: u128 = (remainder as u128) * (self.radix as u128) + val as u128;
                        remainder = (next % (modulus as u128)) as usize;
                    },
                    Err(e) => {
                        return Err(e);
                    },
                }
            }
            i = i + 1;
        }
        proof {
            if skip_idx < digits@.len() {
                assert forall|x: char|
                    remainder == #[trigger] seed_mod(
                        self@,
                        digits@.update(skip_idx as int, x),
                        skip_idx as int,
                        modulus as int,
                    ) by {
                    lemma_seed_frame(
                        self@,
                        digits@,
                        digits@.update(skip_idx as int, x),
                        skip_idx as int,
                        modulus as int,
                    );
                }
            }
        }
        Ok(remainder)
    }

    /// The substitution table for position `skip_idx`: a Fisher-Yates shuffle of the
    /// alphabet whose draws are seeds of the rest of `digits`. It is a rearrangement of the
    /// alphabet, whatever symbol stands at `skip_idx`.
    fn disorder(&self, digits: &Vec<char>, skip_idx: usize) -> (r: Vec<char>)
        requires
            self.wf(),
            over_except(self@, digits@, skip_idx as int),
        ensures
            r@ == permutation_at(self@, digits@, skip_idx as int),
            rearranges(r@, self@),
            skip_idx < digits@.len() ==> forall|x: char|
                r@ == #[trigger] permutation_at(
                    self@,
                    digits@.update(skip_idx as int, x),
                    skip_idx as int,
                ),
    {
        let mut obj = self.alphabet.clone();
        assert(obj@ == self@);
        let mut i: usize = self.radix - 1;
        while i >= 1
            invariant
                self.wf(),
                over_except(self@, digits@, skip_idx as int),
                i < self@.len(),
                obj@.len() == self@.len(),
                obj@ == shuffle(self@, digits@, skip_idx as int, i + 1),
            decreases i,
        {
            if let Ok(j) = self.get_seed_mod(digits, skip_idx, i + 1) {
                let t = obj[i];
                let u = obj[j];
                obj.set(i, u);
                obj.set(j, t);
            }
            i = i - 1;
        }
        proof {
            lemma_permutation(self@, digits@, skip_idx as int);
            if skip_idx < digits@.len() {
                assert forall|x: char|
                    obj@ == #[trigger] permutation_at(
                        self@,
                        digits@.update(skip_idx as int, x),
                        skip_idx as int,
                    ) by {
                    lemma_position_frame(
                        self@,
                        digits@,
                        digits@.update(skip_idx as int, x),
                        skip_idx as int,
                    );
                }
            }
        }
        obj
    }

    /// The new symbol at position `i`: the symbol there, rotated through the position's
    /// table (read from its end when `backward`).
    fn step_at(&self, digits: &Vec<char>, i: usize, backward: bool) -> (r: char)
        requires
            self.wf(),
            over(self@, digits@),
            i < digits@.len(),
        ensures
            r == (if backward {
                backward_char(self@, digits@, i as int)
            } else {
                forward_char(self@, digits@, i as int)
            }),
    {
        proof {
            lemma_permutation(self@, digits@, i as int);
        }
        let mut table = self.disorder(digits, i);
        if backward {
            table = reverse_of(&table);
        }
        let c = digits[i];
        let seed = match self.get_seed_mod(digits, i, self.radix) {
            Ok(seed) => seed,
            // every symbol of `digits` is in the alphabet, so the seed is always found
            Err(_) => {
                return c;
            },
        };
        match position_of(&table, c) {
            Some(pos) => {
                proof {
                    lemma_index_of_unique(table@, pos as int);
                }
                assert((i as u128) * (i as u128) <= 0xFFFF_FFFF_FFFF_FFFE_0000_0000_0000_0001u128)
                    by (nonlinear_arith)
                    requires
                        i <= 0xFFFF_FFFF_FFFF_FFFFu64,
                ;
                let sum: u128 = pos as u128 + seed as u128 + (i as u128) * (i as u128) + 1;
                let k = (sum % (self.radix as u128)) as usize;
                table[k]
            },
            None => c,
        }
    }

    /// Rewrites `digits` position by position, from the first to the last.
    fn forward_pass(&self, digits: &mut Vec<char>)
        requires
            self.wf(),
            over(self@, old(digits)@),
        ensures
            final(digits)@ == encrypt_once_spec(self@, old(digits)@),
    {
        let ghost d0 = digits@;
        let n = digits.len();
        let mut i: usize = 0;
        while i < n
            invariant
                self.wf(),
                over(self@, d0),
                n == d0.len(),
                i <= n,
                digits@ == forward_prefix(self@, d0, i as int),
            decreases n - i,
        {
            proof {
                lemma_forward_prefix(self@, d0, i as int);
            }
            let c = self.step_at(digits, i, false);
            digits.set(i, c);
            i = i + 1;
        }
    }

    /// Rewrites `digits` position by position, from the last to the first.
    fn backward_pass(&self, digits: &mut Vec<char>)
        requires
            self.wf(),
            over(self@, old(digits)@),
        ensures
            final(digits)@ == decrypt_once_spec(self@, old(digits)@),
    {
        let ghost d0 = digits@;
        let mut i: usize = digits.len();
        while i > 0
            invariant
                self.wf(),
                over(self@, d0),
                i <= d0.len(),
                digits@ == backward_suffix(self@, d0, i as int),
            decreases i,
        {
            i = i - 1;
            proof {
                lemma_backward_suffix(self@, d0, i as int + 1);
            }
            let c = self.step_at(digits, i, true);
            digits.set(i, c);
        }
    }

    /// One forward pass over `input`; fails when a symbol lies outside the alphabet.
    pub fn encrypt_once(&self, input: &str) -> (r: Result<String, CipherError>)
        requires
            self.wf(),
        ensures
            r is Ok <==> over(self@, input@),
            r matches Ok(s) ==> s@ == encrypt_once_spec(self@, input@),
            r matches Err(e) ==> e == CipherError::UnknownSymbol,
    {
        let mut digits = chars_of(input);
        if !self.check_symbols(&digits) {
            return Err(CipherError::UnknownSymbol);
        }
        self.forward_pass(&mut digits);
        Ok(string_of(digits))
    }

    /// One backward pass over `input`; fails when a symbol lies outside the alphabet.
    pub fn decrypt_once(&self, input: &str) -> (r: Result<String, CipherError>)
        requires
            self.wf(),
        ensures
            r is Ok <==> over(self@, input@),
            r matches Ok(s) ==> s@ == decrypt_once_spec(self@, input@),
            r matches Err(e) ==> e == CipherError::UnknownSymbol,
    {
        let mut digits = chars_of(input);
        if !self.check_symbols(&digits) {
            return Err(CipherError::UnknownSymbol);
        }
        self.backward_pass(&mut digits);
        Ok(string_of(digits))
    }

    /// `iteration` forward passes over `input`; fails when a symbol lies outside the
    /// alphabet and there is a pass to make. Zero passes give `input` back.
    pub fn encrypt(&self, input: &str, iteration: usize) -> (r: Result<String, CipherError>)
        requires
            self.wf(),
        ensures
            r is Ok <==> (iteration == 0 || over(self@, input@)),
            r matches Ok(s) ==> s@ == encrypt_spec(self@, input@, iteration as nat),
            r matches Err(e) ==> e == CipherError::UnknownSymbol,
    {
        let mut digits = chars_of(input);
        if iteration == 0 {
            return Ok(string_of(digits));
        }
        if !self.check_symbols(&digits) {
            return Err(CipherError::UnknownSymbol);
        }
        let mut k: usize = 0;
        while k < iteration
            invariant
                self.wf(),
                over(self@, input@),
                k <= iteration,
                digits@ == encrypt_spec(self@, input@, k as nat),
            decreases iteration - k,
        {
            proof {
                lemma_encrypt_over(self@, input@, k as nat);
            }
            self.forward_pass(&mut digits);
            k = k + 1;
        }
        Ok(string_of(digits))
    }

    /// `iteration` backward passes over `input`; fails when a symbol lies outside the
    /// alphabet and there is a pass to make. Zero passes give `input` back.
    pub fn decrypt(&self, input: &str, iteration: usize) -> (r: Result<String, CipherError>)
        requires
            self.wf(),
        ensures
            r is Ok <==> (iteration == 0 || over(self@, input@)),
            r matches Ok(s) ==> s@ == decrypt_spec(self@, input@, iteration as nat),
            r matches Err(e) ==> e == CipherError::UnknownSymbol,
    {
        let mut digits = chars_of(input);
        if iteration == 0 {
            return Ok(string_of(digits));
        }
        if !self.check_symbols(&digits) {
            return Err(CipherError::UnknownSymbol);
        }
        let mut k: usize = 0;
        while k < iteration
            invariant
                self.wf(),
                over(self@, input@),
                k <= iteration,
                digits@ == decrypt_spec(self@, input@, k as nat),
            decreases iteration - k,
        {
            proof {
                lemma_decrypt_over(self@, input@, k as nat);
            }
            self.backward_pass(&mut digits);
            k = k + 1;
        }
        Ok(string_of(digits))
    }
}

} // verus!
