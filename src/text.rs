use vstd::prelude::*;
use vstd::utf8::char_u32_cast;
use crate::cipher::{chars_of, string_of, CipherError};
use crate::codec::{lemma_numeral, numeral};
use crate::laws::law_char_round_trip;
use crate::lemmas::lemma_encrypt_over;
use crate::uniaz::{codec_alphabet, decode_token, encrypt_char_spec, UniAz, ROUNDS};

verus! {

/// Unicode's `White_Space` property.
pub open spec fn is_white_space(c: char) -> bool {
    let v = c as u32;
    ||| 9 <= v <= 13
    ||| v == 32
    ||| v == 0x85
    ||| v == 0xA0
    ||| v == 0x1680
    ||| 0x2000 <= v <= 0x200A
    ||| v == 0x2028
    ||| v == 0x2029
    ||| v == 0x202F
    ||| v == 0x205F
    ||| v == 0x3000
}

/// Whether `c` has the `White_Space` property, as `char::is_whitespace` decides it.
fn is_space(c: char) -> (r: bool)
    ensures
        r == is_white_space(c),
{
    let v = c as u32;
    (9 <= v && v <= 13) || v == 32 || v == 0x85 || v == 0xA0 || v == 0x1680 || (0x2000 <= v
        && v <= 0x200A) || v == 0x2028 || v == 0x2029 || v == 0x202F || v == 0x205F || v
        == 0x3000
}

/// The encoded form of each character of `s`, separated by single spaces.
pub open spec fn encrypt_text_spec(a: Seq<char>, s: Seq<char>) -> Seq<char>
    decreases s.len(),
{
    if s.len() == 0 {
        Seq::empty()
    } else if s.len() == 1 {
        encrypt_char_spec(a, s[0])
    } else {
        encrypt_text_spec(a, s.drop_last()) + seq![' '] + encrypt_char_spec(a, s.last())
    }
}

/// The whitespace-separated tokens of `s`: its maximal runs of characters without the
/// `White_Space` property, in order.
pub open spec fn tokens(s: Seq<char>) -> Seq<Seq<char>>
    decreases s.len(),
{
    if s.len() == 0 {
        Seq::empty()
    } else {
        let t = tokens(s.drop_last());
        let c = s.last();
        if is_white_space(c) {
            t
        } else if s.len() >= 2 && !is_white_space(s[s.len() - 2]) {
            t.update(t.len() - 1, t.last().push(c))
        } else {
            t.push(seq![c])
        }
    }
}

/// Each token decoded to one character, in order; the first token that does not decode
/// gives the error.
pub open spec fn decode_all(a: Seq<char>, ts: Seq<Seq<char>>) -> Result<Seq<char>, CipherError>
    decreases ts.len(),
{
    if ts.len() == 0 {
        Ok(Seq::empty())
    } else {
        match decode_all(a, ts.drop_last()) {
            Err(e) => Err(e),
            Ok(cs) => match decode_token(a, ts.last()) {
                Ok(c) => Ok(cs.push(c)),
                Err(e) => Err(e),
            },
        }
    }
}

/// The text that `s` decodes to: each whitespace-separated token decoded to one character.
pub open spec fn decrypt_text_spec(a: Seq<char>, s: Seq<char>) -> Result<Seq<char>, CipherError> {
    decode_all(a, tokens(s))
}

fn push_all(out: &mut Vec<char>, s: &Vec<char>)
    ensures
        final(out)@ == old(out)@ + s@,
{
    let mut j: usize = 0;
    while j < s.len()
        invariant
            j <= s@.len(),
            out@ == old(out)@ + s@.subrange(0, j as int),
        decreases s@.len() - j,
    {
        out.push(s[j]);
        j = j + 1;
        assert(out@ =~= old(out)@ + s@.subrange(0, j as int));
    }
    assert(s@.subrange(0, s@.len() as int) =~= s@);
}

/// A text ending in a run of non-whitespace characters has a token.
proof fn lemma_tokens_nonempty(s: Seq<char>)
    requires
        s.len() >= 1,
        !is_white_space(s.last()),
    ensures
        tokens(s).len() >= 1,
    decreases s.len(),
{
    if s.len() >= 2 && !is_white_space(s[s.len() - 2]) {
        let p = s.drop_last();
        assert(p.last() == s[s.len() - 2]);
        lemma_tokens_nonempty(p);
    }
}

/// A non-empty run without whitespace is a single token.
proof fn lemma_tokens_word(t: Seq<char>)
    requires
        t.len() >= 1,
        forall|i: int| 0 <= i < t.len() ==> !is_white_space(#[trigger] t[i]),
    ensures
        tokens(t) == seq![t],
    decreases t.len(),
{
    let p = t.drop_last();
    let c = t.last();
    assert(!is_white_space(t[t.len() - 1]));
    if p.len() == 0 {
        assert(tokens(p) == Seq::<Seq<char>>::empty());
        assert(seq![c] =~= t);
        assert(Seq::<Seq<char>>::empty().push(seq![c]) =~= seq![t]);
    } else {
        assert forall|i: int| 0 <= i < p.len() implies !is_white_space(#[trigger] p[i]) by {
            assert(p[i] == t[i]);
        }
        lemma_tokens_word(p);
        assert(!is_white_space(t[t.len() - 2]));
        assert(p.push(c) =~= t);
        assert(seq![p].update(0, p.push(c)) =~= seq![t]);
    }
}

/// After whitespace, or at the start, tokens of what follows are tokens of their own.
proof fn lemma_tokens_concat(x: Seq<char>, r: Seq<char>)
    requires
        x.len() == 0 || is_white_space(x.last()),
    ensures
        tokens(x + r) == tokens(x) + tokens(r),
    decreases r.len(),
{
    if r.len() == 0 {
        assert(x + r =~= x);
        assert(tokens(x) + tokens(r) =~= tokens(x));
    } else {
        let r1 = r.drop_last();
        let c = r.last();
        lemma_tokens_concat(x, r1);
        let xr = x + r;
        assert(xr.drop_last() =~= x + r1);
        assert(xr.last() == c);
        if is_white_space(c) {
        } else if r1.len() == 0 {
            assert(tokens(r1) == Seq::<Seq<char>>::empty());
            assert(tokens(x) + tokens(r1) =~= tokens(x));
            if xr.len() >= 2 {
                assert(xr[xr.len() - 2] == x.last());
            }
            assert(tokens(r) =~= seq![seq![c]]);
            assert(tokens(x).push(seq![c]) =~= tokens(x) + seq![seq![c]]);
        } else {
            assert(xr[xr.len() - 2] == r[r.len() - 2]);
            assert(r1.last() == r[r.len() - 2]);
            let t1 = tokens(r1);
            if !is_white_space(r[r.len() - 2]) {
                lemma_tokens_nonempty(r1);
                let tx = tokens(x) + t1;
                assert(tx.update(tx.len() - 1, tx.last().push(c)) =~= tokens(x) + t1.update(
                    t1.len() - 1,
                    t1.last().push(c),
                ));
            } else {
                assert((tokens(x) + t1).push(seq![c]) =~= tokens(x) + t1.push(seq![c]));
            }
        }
    }
}

proof fn lemma_decode_all_error(a: Seq<char>, x: Seq<Seq<char>>, y: Seq<Seq<char>>, e: CipherError)
    requires
        decode_all(a, x) == Err::<Seq<char>, CipherError>(e),
    ensures
        decode_all(a, x + y) == Err::<Seq<char>, CipherError>(e),
    decreases y.len(),
{
    if y.len() == 0 {
        assert(x + y =~= x);
    } else {
        lemma_decode_all_error(a, x, y.drop_last(), e);
        assert((x + y).drop_last() =~= x + y.drop_last());
    }
}

/// An encoded character is a non-empty run of letters that decodes back to it.
proof fn lemma_token(a: Seq<char>, ch: char)
    requires
        codec_alphabet(a),
        forall|i: int| 0 <= i < a.len() ==> !is_white_space(#[trigger] a[i]),
    ensures
        encrypt_char_spec(a, ch).len() >= 1,
        forall|i: int|
            0 <= i < encrypt_char_spec(a, ch).len() ==> !is_white_space(
                #[trigger] encrypt_char_spec(a, ch)[i],
            ),
        decode_token(a, encrypt_char_spec(a, ch)) == Ok::<char, CipherError>(ch),
{
    lemma_numeral(ch as u32 as nat, a);
    lemma_encrypt_over(a, numeral(ch as u32 as nat, a), ROUNDS as nat);
    law_char_round_trip(a, ch);
    char_u32_cast(ch, ch as u32);
    let t = encrypt_char_spec(a, ch);
    assert forall|i: int| 0 <= i < t.len() implies !is_white_space(#[trigger] t[i]) by {
        assert(a.contains(t[i]));
        let j = choose|j: int| 0 <= j < a.len() && a[j] == t[i];
        assert(!is_white_space(a[j]));
    }
}

proof fn lemma_text_tokens(a: Seq<char>, s: Seq<char>)
    requires
        codec_alphabet(a),
        forall|j: int| 0 <= j < a.len() ==> !is_white_space(#[trigger] a[j]),
    ensures
        tokens(encrypt_text_spec(a, s)) == Seq::new(s.len(), |i: int| encrypt_char_spec(a, s[i])),
        decode_all(a, Seq::new(s.len(), |i: int| encrypt_char_spec(a, s[i])))
            == Ok::<Seq<char>, CipherError>(s),
    decreases s.len(),
{
    let ts = Seq::new(s.len(), |i: int| encrypt_char_spec(a, s[i]));
    if s.len() == 0 {
        assert(ts =~= Seq::<Seq<char>>::empty());
        assert(s =~= Seq::<char>::empty());
    } else {
        let p = s.drop_last();
        let e = encrypt_char_spec(a, s.last());
        lemma_token(a, s.last());
        lemma_tokens_word(e);
        lemma_text_tokens(a, p);
        let tp = Seq::new(p.len(), |i: int| encrypt_char_spec(a, p[i]));
        assert(ts.drop_last() =~= tp);
        assert(ts.last() == e);
        assert(p.push(s.last()) =~= s);
        if s.len() == 1 {
            assert(ts =~= seq![e]);
        } else {
            let x = encrypt_text_spec(a, p) + seq![' '];
            assert(x.drop_last() =~= encrypt_text_spec(a, p));
            assert(is_white_space(x.last()));
            assert(tokens(x) == tokens(encrypt_text_spec(a, p)));
            lemma_tokens_concat(x, e);
            assert(tp + seq![e] =~= ts);
        }
    }
}

/// Decoding the encoded form of a text gives the text back.
pub(crate) proof fn lemma_text_round_trip(a: Seq<char>, s: Seq<char>)
    requires
        codec_alphabet(a),
        forall|j: int| 0 <= j < a.len() ==> !is_white_space(#[trigger] a[j]),
    ensures
        decrypt_text_spec(a, encrypt_text_spec(a, s)) == Ok::<Seq<char>, CipherError>(s),
{
    lemma_text_tokens(a, s);
}

impl UniAz {
    /// Encodes every character of `text`, separating the encoded forms by single spaces.
    pub fn encrypt_text(&self, text: &str) -> (r: String)
        requires
            self.wf(),
        ensures
            r@ == encrypt_text_spec(self@, text@),
    {
        let chars = chars_of(text);
        let mut out: Vec<char> = Vec::new();
        let mut i: usize = 0;
        while i < chars.len()
            invariant
                self.wf(),
                i <= chars@.len(),
                out@ == encrypt_text_spec(self@, chars@.subrange(0, i as int)),
            decreases chars@.len() - i,
        {
            if i > 0 {
                out.push(' ');
            }
            let token = self.encrypt(&chars[i]);
            let token_chars = chars_of(token.as_str());
            push_all(&mut out, &token_chars);
            proof {
                let p = chars@.subrange(0, i as int + 1);
                assert(p.drop_last() =~= chars@.subrange(0, i as int));
                if i > 0 {
                    assert(out@ =~= encrypt_text_spec(self@, p.drop_last()) + seq![' ']
                        + encrypt_char_spec(self@, p.last()));
                } else {
                    assert(out@ =~= encrypt_char_spec(self@, p[0]));
                }
            }
            i = i + 1;
        }
        assert(chars@.subrange(0, chars@.len() as int) =~= chars@);
        string_of(out)
    }


    /// Decodes a text of whitespace-separated encoded forms, one character for each; the
    /// first token that does not decode stops the whole text with its error.
    pub fn decrypt_text(&self, text: &str) -> (r: Result<String, CipherError>)
        requires
            self.wf(),
        ensures
            r matches Ok(x) ==> decrypt_text_spec(self@, text@) == Ok::<Seq<char>, CipherError>(x@),
            r matches Err(e) ==> decrypt_text_spec(self@, text@) == Err::<Seq<char>, CipherError>(e),
    {
        let chars = chars_of(text);
        let mut out: Vec<char> = Vec::new();
        let mut cur: Vec<char> = Vec::new();
        let ghost mut closed: Seq<Seq<char>> = Seq::empty();
        let mut i: usize = 0;
        while i < chars.len()
            invariant
                self.wf(),
                chars@ == text@,
                i <= chars@.len(),
                tokens(chars@.subrange(0, i as int)) == (if cur@.len() > 0 {
                    closed.push(cur@)
                } else {
                    closed
                }),
                decode_all(self@, closed) == Ok::<Seq<char>, CipherError>(out@),
                cur@.len() > 0 ==> i > 0 && !is_white_space(chars@[i - 1]),
                cur@.len() == 0 ==> i == 0 || is_white_space(chars@[i - 1]),
            decreases chars@.len() - i,
        {
            let c = chars[i];
            let ghost p = chars@.subrange(0, i as int);
            proof {
                assert(chars@.subrange(0, i + 1).drop_last() =~= p);
                if i > 0 {
                    assert(chars@.subrange(0, i + 1)[i - 1] == chars@[i - 1]);
                }
            }
            if is_space(c) {
                if cur.len() > 0 {
                    let ghost token = cur@;
                    let s = string_of(cur);
                    match self.decrypt(s.as_str()) {
                        Ok(decoded) => {
                            out.push(decoded);
                            proof {
                                let ts = closed.push(token);
                                assert(ts.drop_last() =~= closed);
                                assert(ts.last() == token);
                                closed = ts;
                            }
                        },
                        Err(e) => {
                            proof {
                                let ts = closed.push(token);
                                assert(ts.drop_last() =~= closed);
                                let rest = chars@.subrange(i + 1, chars@.len() as int);
                                let q = chars@.subrange(0, i + 1);
                                assert(q + rest =~= chars@);
                                lemma_tokens_concat(q, rest);
                                lemma_decode_all_error(self@, ts, tokens(rest), e);
                            }
                            return Err(e);
                        },
                    }
                    cur = Vec::new();
                }
            } else {
                let ghost before = cur@;
                cur.push(c);
                proof {
                    if before.len() > 0 {
                        let t = closed.push(before);
                        assert(t.last() == before);
                        assert(t.update(t.len() - 1, before.push(c)) =~= closed.push(cur@));
                    } else {
                        assert(cur@ =~= seq![c]);
                    }
                }
            }
            i = i + 1;
        }
        assert(chars@.subrange(0, chars@.len() as int) =~= chars@);
        if cur.len() > 0 {
            let ghost token = cur@;
            let s = string_of(cur);
            proof {
                assert(closed.push(token).drop_last() =~= closed);
            }
            let decoded = self.decrypt(s.as_str())?;
            out.push(decoded);
        }
        Ok(string_of(out))
    }
}

} // verus!
