//! Lexicographic order on height patterns and their rotations, and the
//! canonical (smallest, then first) rotation of a cyclic pattern.

use vstd::arithmetic::div_mod::{
    lemma_fundamental_div_mod, lemma_fundamental_div_mod_converse, lemma_add_mod_noop, lemma_add_mod_noop_right, lemma_mod_add_multiples_vanish, lemma_mod_mod,
    lemma_mod_pos_bound, lemma_mod_sub_multiples_vanish, lemma_small_mod,
};
use vstd::prelude::*;

verus! {

/// `a` and `b` first differ at position `p`, where `a` is smaller.
pub open spec fn lex_lt_at(a: Seq<i8>, b: Seq<i8>, p: int) -> bool {
    &&& 0 <= p < a.len()
    &&& p < b.len()
    &&& a[p] < b[p]
    &&& forall|q: int| 0 <= q < p ==> a[q] == b[q]
}

/// `a` comes strictly before `b` in lexicographic order (both of one length).
pub open spec fn lex_lt(a: Seq<i8>, b: Seq<i8>) -> bool {
    exists|p: int| lex_lt_at(a, b, p)
}

/// The pattern `s` read cyclically from position `k`: what rotating it
/// left by `k` places gives.
pub open spec fn rotation(s: Seq<i8>, k: int) -> Seq<i8> {
    Seq::new(s.len(), |m: int| s[(k + m) % (s.len() as int)])
}

/// `k` is a rotation of `s` that no rotation of `s` comes before, and every
/// earlier rotation comes strictly after it.
pub open spec fn is_least_min_rotation(s: Seq<i8>, k: int) -> bool {
    &&& 0 <= k < s.len()
    &&& forall|j: int| 0 <= j < s.len() ==> !lex_lt(rotation(s, j), rotation(s, k))
    &&& forall|j: int| 0 <= j < k ==> lex_lt(rotation(s, k), rotation(s, j))
}

/// The first of the smallest rotations among the rotations `0..m` of `s`.
pub open spec fn best_rotation_below(s: Seq<i8>, m: int) -> int
    decreases m,
{
    if m <= 1 {
        0
    } else {
        let b = best_rotation_below(s, m - 1);
        if lex_lt(rotation(s, m - 1), rotation(s, b)) {
            m - 1
        } else {
            b
        }
    }
}

/// The canonical rotation of `s`: the first of its lexicographically
/// smallest rotations (0 for the empty pattern).
pub open spec fn least_rotation(s: Seq<i8>) -> int {
    best_rotation_below(s, s.len() as int)
}

pub proof fn lemma_lex_lt_irreflexive(a: Seq<i8>)
    ensures
        !lex_lt(a, a),
{
}

pub proof fn lemma_lex_lt_transitive(a: Seq<i8>, b: Seq<i8>, c: Seq<i8>)
    requires
        lex_lt(a, b),
        lex_lt(b, c),
    ensures
        lex_lt(a, c),
{
    let p1 = choose|p: int| lex_lt_at(a, b, p);
    let p2 = choose|p: int| lex_lt_at(b, c, p);
    if p1 <= p2 {
        assert(lex_lt_at(a, c, p1));
    } else {
        assert(lex_lt_at(a, c, p2));
    }
}

proof fn lemma_lex_total_from(a: Seq<i8>, b: Seq<i8>, m: int)
    requires
        a.len() == b.len(),
        0 <= m <= a.len(),
        forall|q: int| 0 <= q < m ==> a[q] == b[q],
    ensures
        a =~= b || lex_lt(a, b) || lex_lt(b, a),
    decreases a.len() - m,
{
    if m < a.len() {
        if a[m] == b[m] {
            lemma_lex_total_from(a, b, m + 1);
        } else if a[m] < b[m] {
            assert(lex_lt_at(a, b, m));
        } else {
            assert(lex_lt_at(b, a, m));
        }
    }
}

/// Lexicographic order on patterns of one length is total.
pub proof fn lemma_lex_total(a: Seq<i8>, b: Seq<i8>)
    requires
        a.len() == b.len(),
    ensures
        a == b || lex_lt(a, b) || lex_lt(b, a),
{
    lemma_lex_total_from(a, b, 0);
}

pub proof fn lemma_lex_lt_asymmetric(a: Seq<i8>, b: Seq<i8>)
    requires
        lex_lt(a, b),
    ensures
        !lex_lt(b, a),
{
    if lex_lt(b, a) {
        lemma_lex_lt_transitive(a, b, a);
    }
}

proof fn lemma_best_rotation_below(s: Seq<i8>, m: int)
    requires
        1 <= m <= s.len(),
    ensures
        0 <= best_rotation_below(s, m) < m,
        forall|j: int|
            0 <= j < m ==> !lex_lt(rotation(s, j), rotation(s, best_rotation_below(s, m))),
        forall|j: int|
            0 <= j < best_rotation_below(s, m) ==> lex_lt(
                rotation(s, best_rotation_below(s, m)),
                rotation(s, j),
            ),
    decreases m,
{
    if m > 1 {
        lemma_best_rotation_below(s, m - 1);
        let b = best_rotation_below(s, m - 1);
        let rm = rotation(s, m - 1);
        if lex_lt(rm, rotation(s, b)) {
            assert forall|j: int| 0 <= j < m - 1 implies lex_lt(rm, rotation(s, j)) by {
                lemma_lex_total(rotation(s, b), rotation(s, j));
                if lex_lt(rotation(s, b), rotation(s, j)) {
                    lemma_lex_lt_transitive(rm, rotation(s, b), rotation(s, j));
                }
            }
            assert forall|j: int| 0 <= j < m implies !lex_lt(rotation(s, j), rm) by {
                if j < m - 1 {
                    lemma_lex_lt_asymmetric(rm, rotation(s, j));
                }
            }
        }
    }
}

/// The canonical rotation is the first of the smallest rotations.
pub proof fn lemma_least_rotation(s: Seq<i8>)
    requires
        s.len() > 0,
    ensures
        is_least_min_rotation(s, least_rotation(s)),
{
    lemma_best_rotation_below(s, s.len() as int);
}

/// Only one rotation is the first of the smallest ones.
pub proof fn lemma_least_min_rotation_unique(s: Seq<i8>, k: int)
    requires
        is_least_min_rotation(s, k),
    ensures
        k == least_rotation(s),
{
    lemma_least_rotation(s);
    let l = least_rotation(s);
    if k < l {
        lemma_lex_lt_asymmetric(rotation(s, l), rotation(s, k));
    } else if l < k {
        lemma_lex_lt_asymmetric(rotation(s, k), rotation(s, l));
    }
}

pub proof fn lemma_rotation_zero(s: Seq<i8>)
    ensures
        rotation(s, 0) =~= s,
{
    assert forall|m: int| 0 <= m < s.len() implies rotation(s, 0)[m] == s[m] by {
        lemma_small_mod(m as nat, s.len());
    }
}

/// `a` comes strictly before `b` in lexicographic order (both of one length).
pub fn lex_less(a: &[i8], b: &[i8]) -> (less: bool)
    requires
        a@.len() == b@.len(),
    ensures
        less == lex_lt(a@, b@),
{
    let n = a.len();
    let mut m: usize = 0;
    while m < n
        invariant
            n == a@.len() == b@.len(),
            0 <= m <= n,
            forall|q: int| 0 <= q < m ==> a@[q] == b@[q],
        decreases n - m,
    {
        if a[m] < b[m] {
            assert(lex_lt_at(a@, b@, m as int));
            return true;
        }
        if a[m] > b[m] {
            assert forall|p: int| !lex_lt_at(a@, b@, p) by {
                if lex_lt_at(a@, b@, p) && p > m {
                    assert(a@[m as int] == b@[m as int]);
                }
            }
            return false;
        }
        m = m + 1;
    }
    assert forall|p: int| !lex_lt_at(a@, b@, p) by {}
    false
}

/// A rotation `x` of `s` that some rotation of `s` comes strictly before.
pub open spec fn dominated(s: Seq<i8>, x: int) -> bool {
    exists|y: int| 0 <= y < s.len() && lex_lt(rotation(s, y), rotation(s, x))
}

/// When the rotations from `i` and `j` agree on their first `k` items and
/// then the one from `i` is larger, every rotation from `i..=i + k` has a
/// strictly smaller counterpart.
proof fn lemma_eliminate(s: Seq<i8>, i: int, j: int, k: int, x: int)
    requires
        s.len() >= 1,
        0 <= i < s.len(),
        0 <= j < s.len(),
        0 <= k < s.len(),
        forall|m: int| 0 <= m < k ==> rotation(s, i)[m] == rotation(s, j)[m],
        rotation(s, i)[k] > rotation(s, j)[k],
        i <= x <= i + k,
        x < s.len(),
    ensures
        dominated(s, x),
{
    let n = s.len() as int;
    let y = (j + (x - i)) % n;
    let p = i + k - x;
    lemma_mod_pos_bound(j + (x - i), n);
    let ry = rotation(s, y);
    let rx = rotation(s, x);
    assert forall|q: int| 0 <= q <= p implies ry[q] == rotation(s, j)[x - i + q] && rx[q]
        == rotation(s, i)[x - i + q] by {
        lemma_add_mod_noop_right(q, j + (x - i), n);
        lemma_small_mod(q as nat, n as nat);
        assert((y + q) % n == (j + (x - i) + q) % n) by {
            lemma_add_mod_noop_right(q, j + (x - i), n);
        }
    }
    assert(lex_lt_at(ry, rx, p));
}

/// Rotations from `a` and `b` that agree on one full turn agree forever.
proof fn lemma_agree_forever(s: Seq<i8>, a: int, b: int, t: int)
    requires
        s.len() >= 1,
        forall|m: int| 0 <= m < s.len() ==> rotation(s, a)[m] == rotation(s, b)[m],
        t >= 0,
        a >= 0,
        b >= 0,
    ensures
        s[(a + t) % (s.len() as int)] == s[(b + t) % (s.len() as int)],
{
    let n = s.len() as int;
    lemma_mod_pos_bound(t, n);
    lemma_add_mod_noop_right(a, t, n);
    lemma_add_mod_noop_right(b, t, n);
    assert(rotation(s, a)[t % n] == rotation(s, b)[t % n]);
}

/// Finds the canonical rotation of a cyclic pattern by comparing two
/// candidate starting points at a time and discarding the larger one
/// together with every start it rules out.
pub fn two_pointer_least_rotation(s: &[i8]) -> (start: usize)
    requires
        s@.len() <= usize::MAX / 4,
    ensures
        start == least_rotation(s@),
        s@.len() > 0 ==> start < s@.len(),
{
    let n = s.len();
    let ghost sq = s@;
    let ghost nn = n as int;
    let mut i: usize = 0;
    let mut j: usize = 1;
    let mut k: usize = 0;
    while i < n && j < n && k < n
        invariant
            n == sq.len(),
            sq == s@,
            n <= usize::MAX / 4,
            i != j,
            i < 2 * n + 1,
            j <= 2 * n + 1,
            nn == n,
            n > 0 ==> (i < n || j < n),
            k <= n,
            n > 0 && k > 0 ==> i < n && j < n,
            forall|m: int| 0 <= m < k ==> rotation(sq, i as int)[m] == rotation(sq, j as int)[m],
            forall|x: int|
                0 <= x < n && x < (if i > j {
                    i
                } else {
                    j
                }) && x != (if i < j {
                    i
                } else {
                    j
                }) ==> dominated(sq, x),
        decreases 4 * n + 2 - i - j, n - k,
    {
        let a = s[(i + k) % n];
        let b = s[(j + k) % n];
        if a == b {
            k = k + 1;
        } else {
            let ghost (oi, oj, ok) = (i as int, j as int, k as int);
            if a > b {
                proof {
                    assert forall|x: int| oi <= x <= oi + ok && x < nn implies dominated(sq, x) by {
                        lemma_eliminate(sq, oi, oj, ok, x);
                    }
                }
                i = i + k + 1;
            } else {
                proof {
                    assert forall|x: int| oj <= x <= oj + ok && x < nn implies dominated(sq, x) by {
                        lemma_eliminate(sq, oj, oi, ok, x);
                    }
                }
                j = j + k + 1;
            }
            if i == j {
                j = j + 1;
            }
            k = 0;
        }
    }
    let start = if i < j {
        i
    } else {
        j
    };
    proof {
        if n == 0 {
        } else {
            lemma_least_rotation(sq);
            let l = least_rotation(sq);
            // The canonical rotation is never ruled out.
            if l != start as int {
                let hi = if i > j {
                    i as int
                } else {
                    j as int
                };
                if l < hi {
                    assert(dominated(sq, l));
                    let y = choose|y: int| 0 <= y < nn && lex_lt(rotation(sq, y), rotation(sq, l));
                    assert(false);
                }
                // Only a full turn of agreement stops the scan with both starts below n.
                assert(i < n && j < n && k >= n);
                let lo = start as int;
                let d = hi - lo;
                assert forall|m: int| 0 <= m < nn implies rotation(sq, lo)[m] == rotation(sq, hi)[m] by {
                    assert(rotation(sq, i as int)[m] == rotation(sq, j as int)[m]);
                }
                assert forall|m: int| 0 <= m < nn implies rotation(sq, l - d)[m] == rotation(
                    sq,
                    l,
                )[m] by {
                    lemma_agree_forever(sq, lo, hi, l - hi + m);
                }
                assert(rotation(sq, l - d) =~= rotation(sq, l));
                assert(lex_lt(rotation(sq, l), rotation(sq, l - d)));
            }
        }
    }
    start
}

} // verus!

verus! {

/// The pattern rotated left by `k` places.
pub fn rotated<const N: usize>(arr: &[i8; N], k: usize) -> (res: [i8; N])
    requires
        k <= N,
    ensures
        res@ == rotation(arr@, k as int),
{
    let mut res = *arr;
    let mut m: usize = 0;
    while m < N
        invariant
            0 <= m <= N,
            k <= N,
            res@.len() == N,
            forall|q: int| 0 <= q < m ==> res@[q] == rotation(arr@, k as int)[q],
        decreases N - m,
    {
        let from = if m < N - k {
            m + k
        } else {
            m - (N - k)
        };
        proof {
            if m < N - k {
                lemma_small_mod((k + m) as nat, N as nat);
            } else {
                lemma_small_mod(from as nat, N as nat);
                lemma_mod_add_multiples_vanish(from as int, N as int);
            }
        }
        res[m] = arr[from];
        m = m + 1;
    }
    assert(res@ =~= rotation(arr@, k as int));
    res
}

/// The rotations of a pattern repeated twice are the rotations of the
/// pattern repeated twice.
proof fn lemma_doubled_rotation(s: Seq<i8>, x: int)
    requires
        s.len() >= 1,
        0 <= x < 2 * s.len(),
    ensures
        rotation(s + s, x) =~= rotation(s, x % (s.len() as int)) + rotation(
            s,
            x % (s.len() as int),
        ),
{
    let c = s.len() as int;
    let d = s + s;
    let r = rotation(s, x % c);
    assert forall|m: int| 0 <= m < 2 * c implies rotation(d, x)[m] == (r + r)[m] by {
        let i = (x + m) % (c * 2);
        lemma_mod_pos_bound(x + m, c * 2);
        lemma_mod_mod(x + m, c, 2);
        assert(i % c == (x + m) % c);
        if i < c {
            lemma_small_mod(i as nat, c as nat);
        } else {
            lemma_small_mod((i - c) as nat, c as nat);
            lemma_mod_add_multiples_vanish(i - c, c);
        }
        assert(d[i] == s[(x + m) % c]);
        lemma_mod_pos_bound(x, c);
        if m < c {
            lemma_add_mod_noop(x, m, c);
            lemma_small_mod(m as nat, c as nat);
        } else {
            lemma_add_mod_noop(x, m - c, c);
            lemma_small_mod((m - c) as nat, c as nat);
            lemma_add_mod_noop(x, m, c);
            lemma_mod_add_multiples_vanish(x + (m - c), c);
        }
    }
}

proof fn lemma_lex_lt_doubled(u: Seq<i8>, v: Seq<i8>)
    requires
        u.len() == v.len(),
    ensures
        lex_lt(u + u, v + v) <==> lex_lt(u, v),
{
    let n = u.len() as int;
    if lex_lt(u, v) {
        let p = choose|p: int| lex_lt_at(u, v, p);
        assert(lex_lt_at(u + u, v + v, p));
    }
    if lex_lt(u + u, v + v) {
        let p = choose|p: int| lex_lt_at(u + u, v + v, p);
        if p < n {
            assert forall|q: int| 0 <= q < p implies u[q] == v[q] by {
                assert((u + u)[q] == (v + v)[q]);
            }
            assert(lex_lt_at(u, v, p));
        } else {
            assert(u[p - n] == v[p - n]) by {
                assert((u + u)[p - n] == (v + v)[p - n]);
            }
            assert((u + u)[p] == u[p - n]);
        }
    }
}

/// The canonical rotation of a pattern repeated twice is the canonical
/// rotation of the pattern.
pub proof fn lemma_doubled_least_rotation(s: Seq<i8>)
    requires
        s.len() >= 1,
    ensures
        least_rotation(s + s) == least_rotation(s),
{
    let c = s.len() as int;
    let d = s + s;
    lemma_least_rotation(d);
    let p = least_rotation(d);
    lemma_doubled_rotation(s, p);
    if p >= c {
        lemma_doubled_rotation(s, p - c);
        lemma_mod_sub_multiples_vanish(p, c);
        assert(rotation(d, p - c) == rotation(d, p));
        lemma_lex_lt_irreflexive(rotation(d, p));
    }
    lemma_small_mod(p as nat, c as nat);
    assert forall|j: int| 0 <= j < c implies !lex_lt(rotation(s, j), rotation(s, p)) by {
        lemma_doubled_rotation(s, j);
        lemma_small_mod(j as nat, c as nat);
        lemma_lex_lt_doubled(rotation(s, j), rotation(s, p));
    }
    assert forall|j: int| 0 <= j < p implies lex_lt(rotation(s, p), rotation(s, j)) by {
        lemma_doubled_rotation(s, j);
        lemma_small_mod(j as nat, c as nat);
        lemma_lex_lt_doubled(rotation(s, p), rotation(s, j));
    }
    lemma_least_min_rotation_unique(s, p);
}

} // verus!

verus! {

proof fn lemma_rotation_of_rotation(s: Seq<i8>, t: int, x: int)
    requires
        s.len() >= 1,
        0 <= t,
        0 <= x,
    ensures
        rotation(rotation(s, t), x) =~= rotation(s, (t + x) % (s.len() as int)),
{
    let n = s.len() as int;
    let r = rotation(s, t);
    assert forall|m: int| 0 <= m < n implies rotation(r, x)[m] == rotation(
        s,
        (t + x) % n,
    )[m] by {
        lemma_mod_pos_bound(x + m, n);
        lemma_add_mod_noop_right(t, x + m, n);
        lemma_add_mod_noop(t + x, m, n);
        lemma_small_mod(m as nat, n as nat);
        lemma_mod_pos_bound(t + x, n);
        lemma_add_mod_noop_right(m, t + x, n);
    }
}

/// Rotating a pattern before taking its canonical rotation changes nothing:
/// every rotation of a pattern has the same canonical form.
pub proof fn lemma_canonical_form_rotation_invariant(s: Seq<i8>, t: int)
    requires
        s.len() >= 1,
        0 <= t,
    ensures
        rotation(rotation(s, t), least_rotation(rotation(s, t))) == rotation(
            s,
            least_rotation(s),
        ),
{
    let n = s.len() as int;
    let r = rotation(s, t);
    lemma_least_rotation(s);
    lemma_least_rotation(r);
    let a = least_rotation(s);
    let b = least_rotation(r);
    let big_a = rotation(s, a);
    lemma_rotation_of_rotation(s, t, b);
    lemma_mod_pos_bound(t + b, n);
    let big_b = rotation(r, b);
    // The canonical rotation of `r` is no larger than that of `s`.
    lemma_mod_pos_bound(t, n);
    let tm = t % n;
    lemma_mod_pos_bound(a + n - tm, n);
    let y = (a + n - tm) % n;
    lemma_rotation_of_rotation(s, t, y);
    lemma_add_mod_noop_right(t, a + n - tm, n);
    lemma_fundamental_div_mod(t, n);
    let q = t / n;
    assert(t + (a + n - tm) == (q + 1) * n + a) by (nonlinear_arith)
        requires
            t == n * q + tm,
    ;
    lemma_fundamental_div_mod_converse(t + (a + n - tm), n, q + 1, a);
    assert(rotation(r, y) == big_a);
    assert(!lex_lt(big_a, big_b));
    assert(!lex_lt(big_b, big_a));
    lemma_lex_total(big_a, big_b);
}

/// The canonical rotation of a pattern already in canonical form is the
/// pattern itself, reached by rotating by 0.
pub proof fn lemma_canonical_form_idempotent(s: Seq<i8>)
    requires
        s.len() >= 1,
    ensures
        least_rotation(rotation(s, least_rotation(s))) == 0,
{
    let n = s.len() as int;
    let c = rotation(s, least_rotation(s));
    lemma_least_rotation(s);
    assert forall|j: int| 0 <= j < n implies !lex_lt(rotation(c, j), rotation(c, 0)) by {
        lemma_rotation_of_rotation(s, least_rotation(s), j);
        lemma_rotation_of_rotation(s, least_rotation(s), 0);
        lemma_mod_pos_bound(least_rotation(s) + j, n);
        lemma_small_mod(least_rotation(s) as nat, n as nat);
    }
    lemma_least_min_rotation_unique(c, 0);
}


/// Rotating left by `k` keeps the length and moves the item at place
/// `(k + m) mod n` to place `m`.
pub proof fn lemma_rotation_items(s: Seq<i8>, k: int, m: int)
    requires
        0 <= m < s.len(),
    ensures
        rotation(s, k).len() == s.len(),
        rotation(s, k)[m] == s[(k + m) % (s.len() as int)],
{
}

} // verus!
