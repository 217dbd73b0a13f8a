use vstd::prelude::*;
use crate::model::{
    backward_char, backward_suffix, decrypt_once_spec, decrypt_spec, encrypt_once_spec,
    encrypt_spec, forward_char, forward_prefix, horner, offset_at, over, permutation_at,
    reversed, rotate_in, seed_mod, shuffle, swapped,
};
use vstd::arithmetic::div_mod::{
    lemma_fundamental_div_mod, lemma_mod_multiples_vanish, lemma_small_mod,
};

verus! {

/// A seed taken modulo a positive `m` lies in `0 .. m`.
pub proof fn lemma_horner_bound(a: Seq<char>, d: Seq<char>, skip: int, m: int, k: int)
    requires
        m > 0,
    ensures
        0 <= horner(a, d, skip, m, k) < m,
    decreases k,
{
    if k > 0 {
        lemma_horner_bound(a, d, skip, m, k - 1);
    }
}

/// A seed taken modulo a positive `m` lies in `0 .. m`.
pub proof fn lemma_seed_bound(a: Seq<char>, d: Seq<char>, skip: int, m: int)
    requires
        m > 0,
    ensures
        0 <= seed_mod(a, d, skip, m) < m,
{
    lemma_horner_bound(a, d, skip, m, d.len() as int);
}

/// Two sequences that differ at most at `skip`.
pub open spec fn same_but(d1: Seq<char>, d2: Seq<char>, skip: int) -> bool {
    &&& d1.len() == d2.len()
    &&& forall|j: int| 0 <= j < d1.len() && j != skip ==> d1[j] == d2[j]
}

proof fn lemma_horner_frame(a: Seq<char>, d1: Seq<char>, d2: Seq<char>, skip: int, m: int, k: int)
    requires
        same_but(d1, d2, skip),
        k <= d1.len(),
    ensures
        horner(a, d1, skip, m, k) == horner(a, d2, skip, m, k),
    decreases k,
{
    if k > 0 {
        lemma_horner_frame(a, d1, d2, skip, m, k - 1);
    }
}

/// The seed does not depend on the symbol at the position it leaves out.
pub proof fn lemma_seed_frame(a: Seq<char>, d1: Seq<char>, d2: Seq<char>, skip: int, m: int)
    requires
        same_but(d1, d2, skip),
    ensures
        seed_mod(a, d1, skip, m) == seed_mod(a, d2, skip, m),
{
    lemma_horner_frame(a, d1, d2, skip, m, d1.len() as int);
}

proof fn lemma_shuffle_frame(a: Seq<char>, d1: Seq<char>, d2: Seq<char>, skip: int, k: int)
    requires
        same_but(d1, d2, skip),
    ensures
        shuffle(a, d1, skip, k) == shuffle(a, d2, skip, k),
    decreases a.len() - k,
{
    if k < a.len() {
        lemma_shuffle_frame(a, d1, d2, skip, k + 1);
        lemma_seed_frame(a, d1, d2, skip, k + 1);
    }
}

/// Neither the table nor the offset of a position depends on the symbol at that position.
pub proof fn lemma_position_frame(a: Seq<char>, d1: Seq<char>, d2: Seq<char>, i: int)
    requires
        same_but(d1, d2, i),
    ensures
        permutation_at(a, d1, i) == permutation_at(a, d2, i),
        offset_at(a, d1, i) == offset_at(a, d2, i),
{
    lemma_shuffle_frame(a, d1, d2, i, 1);
    lemma_seed_frame(a, d1, d2, i, a.len() as int);
}

/// `p` and `q` hold the same symbols, each once.
pub open spec fn rearranges(p: Seq<char>, q: Seq<char>) -> bool {
    &&& p.len() == q.len()
    &&& p.no_duplicates()
    &&& forall|c: char| p.contains(c) <==> q.contains(c)
}

proof fn lemma_swap_rearranges(p: Seq<char>, i: int, j: int)
    requires
        p.no_duplicates(),
        0 <= i < p.len(),
        0 <= j < p.len(),
    ensures
        rearranges(swapped(p, i, j), p),
{
    let q = swapped(p, i, j);
    assert forall|c: char| q.contains(c) <==> p.contains(c) by {
        if q.contains(c) {
            let x = choose|x: int| 0 <= x < q.len() && q[x] == c;
            if x == i {
                assert(p[j] == c);
            } else if x == j {
                assert(p[i] == c);
            } else {
                assert(p[x] == c);
            }
        }
        if p.contains(c) {
            let x = choose|x: int| 0 <= x < p.len() && p[x] == c;
            if x == i {
                assert(q[j] == c);
            } else if x == j {
                assert(q[i] == c);
            } else {
                assert(q[x] == c);
            }
        }
    }
}

proof fn lemma_shuffle_rearranges(a: Seq<char>, d: Seq<char>, skip: int, k: int)
    requires
        a.no_duplicates(),
        1 <= k,
    ensures
        rearranges(shuffle(a, d, skip, k), a),
    decreases a.len() - k,
{
    if k < a.len() {
        lemma_shuffle_rearranges(a, d, skip, k + 1);
        lemma_seed_bound(a, d, skip, k + 1);
        lemma_swap_rearranges(shuffle(a, d, skip, k + 1), k, seed_mod(a, d, skip, k + 1));
    }
}

/// Every table is a rearrangement of the alphabet.
pub proof fn lemma_permutation(a: Seq<char>, d: Seq<char>, skip: int)
    requires
        a.no_duplicates(),
    ensures
        rearranges(permutation_at(a, d, skip), a),
        rearranges(reversed(permutation_at(a, d, skip)), a),
{
    let p = permutation_at(a, d, skip);
    lemma_shuffle_rearranges(a, d, skip, 1);
    let r = reversed(p);
    assert forall|c: char| r.contains(c) <==> p.contains(c) by {
        if r.contains(c) {
            let x = choose|x: int| 0 <= x < r.len() && r[x] == c;
            assert(p[p.len() - 1 - x] == c);
        }
        if p.contains(c) {
            let x = choose|x: int| 0 <= x < p.len() && p[x] == c;
            assert(r[p.len() - 1 - x] == c);
        }
    }
    assert forall|x: int, y: int| 0 <= x < r.len() && 0 <= y < r.len() && x != y implies r[x]
        != r[y] by {
        assert(p[p.len() - 1 - x] != p[p.len() - 1 - y]);
    }
}

/// In a sequence without repeats, the index of a symbol is the position that holds it.
pub proof fn lemma_index_of_unique(p: Seq<char>, x: int)
    requires
        p.no_duplicates(),
        0 <= x < p.len(),
    ensures
        p.contains(p[x]),
        p.index_of(p[x]) == x,
{
    assert(p[x] == p[x]);
    let y = p.index_of(p[x]);
}

proof fn lemma_unrotate_index(n: int, x: int, off: int)
    requires
        0 <= x < n,
        off >= 0,
    ensures
        0 <= (x + off) % n < n,
        n - 1 - ((n - 1 - (x + off) % n + off) % n) == x,
{
    let q = (x + off) % n;
    let t = (x + off) / n;
    lemma_fundamental_div_mod(x + off, n);
    assert(n - 1 - q + off == n * t + (n - 1 - x)) by (nonlinear_arith)
        requires
            x + off == n * t + q,
    ;
    lemma_mod_multiples_vanish(t, n - 1 - x, n);
    lemma_small_mod((n - 1 - x) as nat, n as nat);
    assert((n - 1 - q + off) % n == n - 1 - x);
}

/// Rotating back through the reversed table undoes rotating forward through the table.
pub proof fn lemma_unrotate(p: Seq<char>, c: char, off: int)
    requires
        p.no_duplicates(),
        p.contains(c),
        off >= 0,
    ensures
        p.contains(rotate_in(p, c, off)),
        rotate_in(reversed(p), rotate_in(p, c, off), off) == c,
{
    let n = p.len() as int;
    let x = p.index_of(c);
    lemma_unrotate_index(n, x, off);
    let q = (x + off) % n;
    let c2 = p[q];
    lemma_index_of_unique(p, q);
    let r = reversed(p);
    assert forall|u: int, v: int| 0 <= u < r.len() && 0 <= v < r.len() && u != v implies r[u]
        != r[v] by {
        assert(p[n - 1 - u] != p[n - 1 - v]);
    }
    assert(r[n - 1 - q] == c2);
    lemma_index_of_unique(r, n - 1 - q);
    assert(r[(n - 1 - q + off) % n] == p[x]);
}

/// The new symbol at a position is a symbol of the table, hence of the alphabet.
pub proof fn lemma_step_over(a: Seq<char>, d: Seq<char>, i: int)
    requires
        a.no_duplicates(),
        a.len() >= 1,
        over(a, d),
        0 <= i < d.len(),
    ensures
        a.contains(forward_char(a, d, i)),
        a.contains(backward_char(a, d, i)),
{
    lemma_permutation(a, d, i);
    let p = permutation_at(a, d, i);
    let r = reversed(p);
    assert(a.contains(d[i]));
    assert(p.contains(d[i]));
    let off = offset_at(a, d, i);
    let x = p.index_of(d[i]);
    assert(p.contains(p[(x + off) % p.len() as int]));
    let y = r.index_of(d[i]);
    assert(r.contains(r[(y + off) % r.len() as int]));
}

/// A forward pass in progress keeps the length, stays over the alphabet, and has not yet
/// touched the positions from `k` on.
pub proof fn lemma_forward_prefix(a: Seq<char>, d: Seq<char>, k: int)
    requires
        a.no_duplicates(),
        a.len() >= 1,
        over(a, d),
        0 <= k <= d.len(),
    ensures
        forward_prefix(a, d, k).len() == d.len(),
        over(a, forward_prefix(a, d, k)),
        forall|j: int| k <= j < d.len() ==> forward_prefix(a, d, k)[j] == d[j],
    decreases k,
{
    if k > 0 {
        lemma_forward_prefix(a, d, k - 1);
        lemma_step_over(a, forward_prefix(a, d, k - 1), k - 1);
    }
}

/// A backward pass in progress keeps the length, stays over the alphabet, and has not yet
/// touched the positions before `k`.
pub proof fn lemma_backward_suffix(a: Seq<char>, d: Seq<char>, k: int)
    requires
        a.no_duplicates(),
        a.len() >= 1,
        over(a, d),
        0 <= k <= d.len(),
    ensures
        backward_suffix(a, d, k).len() == d.len(),
        over(a, backward_suffix(a, d, k)),
        forall|j: int| 0 <= j < k ==> backward_suffix(a, d, k)[j] == d[j],
    decreases d.len() - k,
{
    if k < d.len() {
        lemma_backward_suffix(a, d, k + 1);
        lemma_step_over(a, backward_suffix(a, d, k + 1), k);
    }
}

proof fn lemma_backward_meets_forward(a: Seq<char>, d: Seq<char>, k: int)
    requires
        a.no_duplicates(),
        a.len() >= 1,
        over(a, d),
        0 <= k <= d.len(),
    ensures
        backward_suffix(a, encrypt_once_spec(a, d), k) == forward_prefix(a, d, k),
    decreases d.len() - k,
{
    let e = encrypt_once_spec(a, d);
    lemma_forward_prefix(a, d, d.len() as int);
    if k < d.len() {
        lemma_backward_meets_forward(a, d, k + 1);
        let f0 = forward_prefix(a, d, k);
        let f1 = forward_prefix(a, d, k + 1);
        lemma_forward_prefix(a, d, k);
        assert(same_but(f0, f1, k));
        lemma_position_frame(a, f0, f1, k);
        let p = permutation_at(a, f0, k);
        lemma_permutation(a, f0, k);
        assert(a.contains(f0[k]));
        assert(k * k >= 0) by (nonlinear_arith);
        lemma_seed_bound(a, f0, k, a.len() as int);
        lemma_unrotate(p, f0[k], offset_at(a, f0, k));
        assert(backward_char(a, f1, k) == f0[k]);
        assert(f1.update(k, f0[k]) =~= f0);
    }
}

/// One backward pass undoes one forward pass.
pub proof fn lemma_decrypt_encrypt_once(a: Seq<char>, d: Seq<char>)
    requires
        a.no_duplicates(),
        a.len() >= 1,
        over(a, d),
    ensures
        decrypt_once_spec(a, encrypt_once_spec(a, d)) == d,
{
    lemma_backward_meets_forward(a, d, 0);
}

/// Any number of forward passes keeps the length and stays over the alphabet.
pub proof fn lemma_encrypt_over(a: Seq<char>, d: Seq<char>, n: nat)
    requires
        a.no_duplicates(),
        a.len() >= 1,
        over(a, d),
    ensures
        encrypt_spec(a, d, n).len() == d.len(),
        over(a, encrypt_spec(a, d, n)),
    decreases n,
{
    if n > 0 {
        lemma_encrypt_over(a, d, (n - 1) as nat);
        let e = encrypt_spec(a, d, (n - 1) as nat);
        lemma_forward_prefix(a, e, e.len() as int);
    }
}

/// Any number of backward passes keeps the length and stays over the alphabet.
pub proof fn lemma_decrypt_over(a: Seq<char>, d: Seq<char>, n: nat)
    requires
        a.no_duplicates(),
        a.len() >= 1,
        over(a, d),
    ensures
        decrypt_spec(a, d, n).len() == d.len(),
        over(a, decrypt_spec(a, d, n)),
    decreases n,
{
    if n > 0 {
        lemma_decrypt_over(a, d, (n - 1) as nat);
        let e = decrypt_spec(a, d, (n - 1) as nat);
        lemma_backward_suffix(a, e, 0);
    }
}

proof fn lemma_decrypt_first(a: Seq<char>, d: Seq<char>, n: nat)
    requires
        n >= 1,
    ensures
        decrypt_spec(a, d, n) == decrypt_spec(a, decrypt_once_spec(a, d), (n - 1) as nat),
    decreases n,
{
    if n > 1 {
        let m = (n - 1) as nat;
        lemma_decrypt_first(a, d, m);
        assert(decrypt_spec(a, d, n) == decrypt_once_spec(a, decrypt_spec(a, d, m)));
        assert(decrypt_spec(a, decrypt_once_spec(a, d), m) == decrypt_once_spec(
            a,
            decrypt_spec(a, decrypt_once_spec(a, d), (m - 1) as nat),
        ));
    } else {
        assert(decrypt_spec(a, d, 0) == d);
        assert(decrypt_spec(a, decrypt_once_spec(a, d), 0) == decrypt_once_spec(a, d));
    }
}

/// `n` backward passes undo `n` forward passes.
pub proof fn lemma_decrypt_encrypt(a: Seq<char>, d: Seq<char>, n: nat)
    requires
        a.no_duplicates(),
        a.len() >= 1,
        over(a, d),
    ensures
        decrypt_spec(a, encrypt_spec(a, d, n), n) == d,
    decreases n,
{
    if n > 0 {
        let y = encrypt_spec(a, d, (n - 1) as nat);
        lemma_encrypt_over(a, d, (n - 1) as nat);
        lemma_decrypt_first(a, encrypt_once_spec(a, y), n);
        lemma_decrypt_encrypt_once(a, y);
        lemma_decrypt_encrypt(a, d, (n - 1) as nat);
    }
}

} // verus!
