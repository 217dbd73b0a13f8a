use vstd::prelude::*;

verus! {

/// Every symbol of `d` belongs to the alphabet `a`.
pub open spec fn over(a: Seq<char>, d: Seq<char>) -> bool {
    forall|i: int| 0 <= i < d.len() ==> a.contains(#[trigger] d[i])
}

/// Every symbol of `d` but the one at `skip` belongs to the alphabet `a`.
pub open spec fn over_except(a: Seq<char>, d: Seq<char>, skip: int) -> bool {
    forall|i: int| 0 <= i < d.len() && i != skip ==> a.contains(#[trigger] d[i])
}

/// Horner's rule over the first `k` symbols of `d`, leaving out position `skip`: each symbol
/// is a digit in base `|a|`, and the running value is reduced modulo `m` at every step.
pub open spec fn horner(a: Seq<char>, d: Seq<char>, skip: int, m: int, k: int) -> int
    decreases k,
{
    if k <= 0 {
        0
    } else {
        let r = horner(a, d, skip, m, k - 1);
        if k - 1 == skip {
            r
        } else {
            (r * a.len() + a.index_of(d[k - 1])) % m
        }
    }
}

/// The seed of `d` with position `skip` left out, modulo `m`; a zero modulus gives zero.
pub open spec fn seed_mod(a: Seq<char>, d: Seq<char>, skip: int, m: int) -> int {
    if m <= 0 {
        0
    } else {
        horner(a, d, skip, m, d.len() as int)
    }
}

/// `p` with the entries at `i` and `j` exchanged.
pub open spec fn swapped(p: Seq<char>, i: int, j: int) -> Seq<char> {
    p.update(i, p[j]).update(j, p[i])
}

/// The alphabet after the shuffle steps for windows `|a| - 1` down to `k`: step `k` swaps
/// position `k` with the seed modulo `k + 1`.
pub open spec fn shuffle(a: Seq<char>, d: Seq<char>, skip: int, k: int) -> Seq<char>
    decreases a.len() - k,
{
    if k >= a.len() {
        a
    } else {
        swapped(shuffle(a, d, skip, k + 1), k, seed_mod(a, d, skip, k + 1))
    }
}

/// The substitution table for position `skip` of `d`.
pub open spec fn permutation_at(a: Seq<char>, d: Seq<char>, skip: int) -> Seq<char> {
    shuffle(a, d, skip, 1)
}

/// `p` read from its end.
pub open spec fn reversed(p: Seq<char>) -> Seq<char> {
    Seq::new(p.len(), |k: int| p[p.len() - 1 - k])
}

/// How far position `i` of `d` is rotated through its table.
pub open spec fn offset_at(a: Seq<char>, d: Seq<char>, i: int) -> int {
    seed_mod(a, d, i, a.len() as int) + i * i + 1
}

/// The entry `off` places after `c` in `p`, cyclically; `c` itself where `p` lacks it.
pub open spec fn rotate_in(p: Seq<char>, c: char, off: int) -> char {
    if p.contains(c) {
        p[(p.index_of(c) + off) % p.len() as int]
    } else {
        c
    }
}

/// The new symbol at position `i` on a forward pass.
pub open spec fn forward_char(a: Seq<char>, d: Seq<char>, i: int) -> char {
    rotate_in(permutation_at(a, d, i), d[i], offset_at(a, d, i))
}

/// The new symbol at position `i` on a backward pass.
pub open spec fn backward_char(a: Seq<char>, d: Seq<char>, i: int) -> char {
    rotate_in(reversed(permutation_at(a, d, i)), d[i], offset_at(a, d, i))
}

/// `d` after the forward pass has rewritten positions `0 .. k`, in increasing order.
pub open spec fn forward_prefix(a: Seq<char>, d: Seq<char>, k: int) -> Seq<char>
    decreases k,
{
    if k <= 0 {
        d
    } else {
        let e = forward_prefix(a, d, k - 1);
        e.update(k - 1, forward_char(a, e, k - 1))
    }
}

/// `d` after the backward pass has rewritten positions `k .. |d|`, in decreasing order.
pub open spec fn backward_suffix(a: Seq<char>, d: Seq<char>, k: int) -> Seq<char>
    decreases d.len() - k,
{
    if k >= d.len() {
        d
    } else {
        let e = backward_suffix(a, d, k + 1);
        e.update(k, backward_char(a, e, k))
    }
}

/// One forward pass over the whole sequence.
pub open spec fn encrypt_once_spec(a: Seq<char>, d: Seq<char>) -> Seq<char> {
    forward_prefix(a, d, d.len() as int)
}

/// One backward pass over the whole sequence.
pub open spec fn decrypt_once_spec(a: Seq<char>, d: Seq<char>) -> Seq<char> {
    backward_suffix(a, d, 0)
}

/// `n` forward passes.
pub open spec fn encrypt_spec(a: Seq<char>, d: Seq<char>, n: nat) -> Seq<char>
    decreases n,
{
    if n == 0 {
        d
    } else {
        encrypt_once_spec(a, encrypt_spec(a, d, (n - 1) as nat))
    }
}

/// `n` backward passes.
pub open spec fn decrypt_spec(a: Seq<char>, d: Seq<char>, n: nat) -> Seq<char>
    decreases n,
{
    if n == 0 {
        d
    } else {
        decrypt_once_spec(a, decrypt_spec(a, d, (n - 1) as nat))
    }
}

} // verus!
