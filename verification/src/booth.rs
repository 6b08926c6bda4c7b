//! Why Booth's scan finds the canonical rotation: the failure table of the
//! current candidate's window, and which other starting points it has
//! already ruled out.

use crate::rotation::{
    is_least_min_rotation, lemma_least_min_rotation_unique, lemma_lex_lt_asymmetric,
    lemma_lex_lt_irreflexive, lemma_lex_lt_transitive, least_rotation, lex_lt, lex_lt_at, rotation,
};
use vstd::arithmetic::div_mod::{
    lemma_add_mod_noop_right, lemma_mod_pos_bound, lemma_mod_sub_multiples_vanish,
};
use vstd::prelude::*;

verus! {

/// Item `q` of the pattern read cyclically from `a`.
pub open spec fn wc(s: Seq<i8>, a: int, q: int) -> i8 {
    s[(a + q) % (s.len() as int)]
}

/// The window of `len` items read from `k` has a proper border of length
/// `b`: its first `b` items equal its last `b` items.
pub open spec fn is_border(s: Seq<i8>, k: int, len: int, b: int) -> bool {
    &&& 0 <= b < len
    &&& forall|q: int| 0 <= q < b ==> #[trigger] wc(s, k, q) == wc(s, k + len - b, q)
}

/// Entry `m` of the failure table of the window read from `k`: one less
/// than the longest proper border of its first `m + 1` items.
pub open spec fn failure_entry(s: Seq<i8>, f: Seq<i16>, k: int, m: int) -> bool {
    &&& -1 <= f[m] < m
    &&& is_border(s, k, m + 1, f[m] + 1)
    &&& forall|c: int| f[m] + 1 < c < m + 1 ==> !#[trigger] is_border(s, k, m + 1, c)
}

pub open spec fn failure_table(s: Seq<i8>, f: Seq<i16>, k: int, len: int) -> bool {
    forall|m: int| 0 <= m < len ==> #[trigger] failure_entry(s, f, k, m)
}

/// Every start before `k` is strictly larger than the start at `k`.
pub open spec fn earlier_starts_larger(s: Seq<i8>, k: int) -> bool {
    forall|x: int| #![trigger rotation(s, x)] 0 <= x < k ==> lex_lt(rotation(s, k), rotation(s, x))
}

/// Every start after `k` inside the window is either strictly larger than
/// the start at `k` or reads like the window's beginning up to `j`.
pub open spec fn window_starts_ok(s: Seq<i8>, k: int, j: int) -> bool {
    forall|x: int|
        #![trigger rotation(s, x)]
        k < x < j ==> is_border(s, k, j - k, j - x) || lex_lt(rotation(s, k), rotation(s, x))
}

pub open spec fn outer_ok(s: Seq<i8>, f: Seq<i16>, k: int, j: int) -> bool {
    &&& s.len() >= 1
    &&& 1 <= j <= 2 * s.len()
    &&& 0 <= k < j
    &&& f.len() == 2 * s.len()
    &&& failure_table(s, f, k, j - k)
    &&& earlier_starts_larger(s, k)
    &&& window_starts_ok(s, k, j)
}

pub open spec fn inner_ok(s: Seq<i8>, f: Seq<i16>, k: int, j: int, i: int) -> bool {
    &&& s.len() >= 1
    &&& 1 <= j < 2 * s.len()
    &&& 0 <= k < j
    &&& -1 <= i
    &&& i + 1 < j - k
    &&& f.len() == 2 * s.len()
    &&& failure_table(s, f, k, j - k)
    &&& is_border(s, k, j - k, i + 1)
    &&& earlier_starts_larger(s, k)
    &&& forall|x: int|
        #![trigger rotation(s, x)]
        k < x < j ==> {
            &&& x < j - i - 1 ==> lex_lt(rotation(s, k), rotation(s, x))
            &&& is_border(s, k, j - k, j - x) || lex_lt(rotation(s, k), rotation(s, x))
        }
    &&& forall|b: int|
        i + 1 < b < j - k && #[trigger] is_border(s, k, j - k, b) ==> wc(s, k, b) != wc(
            s,
            k,
            j - k,
        )
}

/// Items read from two starts that agree on one full turn agree forever.
pub proof fn lemma_agree_all(s: Seq<i8>, a: int, c: int, q: int)
    requires
        s.len() >= 1,
        forall|t: int| 0 <= t < s.len() ==> #[trigger] wc(s, a, t) == wc(s, c, t),
        q >= 0,
    ensures
        wc(s, a, q) == wc(s, c, q),
{
    let n = s.len() as int;
    lemma_mod_pos_bound(q, n);
    lemma_add_mod_noop_right(a, q, n);
    lemma_add_mod_noop_right(c, q, n);
    assert(wc(s, a, q % n) == wc(s, c, q % n));
}

/// Two starts that read alike up to `p` and then differ, the one from `a`
/// being smaller, give rotations in that order; they differ within one turn.
pub proof fn lemma_lex_from_window(s: Seq<i8>, a: int, c: int, p: int)
    requires
        s.len() >= 1,
        p >= 0,
        forall|q: int| 0 <= q < p ==> #[trigger] wc(s, a, q) == wc(s, c, q),
        wc(s, a, p) < wc(s, c, p),
    ensures
        p < s.len(),
        lex_lt(rotation(s, a), rotation(s, c)),
{
    let n = s.len() as int;
    if p >= n {
        lemma_agree_all(s, a, c, p);
    }
    assert forall|q: int| 0 <= q < p implies rotation(s, a)[q] == rotation(s, c)[q] by {
        assert(wc(s, a, q) == wc(s, c, q));
    }
    assert(rotation(s, a)[p] == wc(s, a, p));
    assert(lex_lt_at(rotation(s, a), rotation(s, c), p));
}

/// Two starts that read alike for one full turn give equal rotations.
pub proof fn lemma_equal_rotations(s: Seq<i8>, a: int, c: int)
    requires
        s.len() >= 1,
        forall|q: int| 0 <= q < s.len() ==> #[trigger] wc(s, a, q) == wc(s, c, q),
    ensures
        rotation(s, a) == rotation(s, c),
{
    assert forall|q: int| 0 <= q < s.len() implies rotation(s, a)[q] == rotation(s, c)[q] by {
        assert(wc(s, a, q) == wc(s, c, q));
    }
    assert(rotation(s, a) =~= rotation(s, c));
}

/// A border of a border is a border.
pub proof fn lemma_border_of_border(s: Seq<i8>, k: int, len: int, big: int, b: int)
    requires
        is_border(s, k, len, big),
        is_border(s, k, big, b),
    ensures
        is_border(s, k, len, b),
{
    assert forall|q: int| 0 <= q < b implies #[trigger] wc(s, k, q) == wc(s, k + len - b, q) by {
        assert(wc(s, k, q) == wc(s, k + big - b, q));
        assert(wc(s, k, big - b + q) == wc(s, k + len - big, big - b + q));
    }
}

/// A border shorter than another border is a border of that border.
pub proof fn lemma_shorter_border(s: Seq<i8>, k: int, len: int, big: int, b: int)
    requires
        is_border(s, k, len, big),
        is_border(s, k, len, b),
        b < big,
    ensures
        is_border(s, k, big, b),
{
    assert forall|q: int| 0 <= q < b implies #[trigger] wc(s, k, q) == wc(s, k + big - b, q) by {
        assert(wc(s, k, q) == wc(s, k + len - b, q));
        assert(wc(s, k, big - b + q) == wc(s, k + len - big, big - b + q));
    }
}

/// Borders of windows that read alike are the same.
pub proof fn lemma_border_same_window(s: Seq<i8>, k1: int, k2: int, len: int, b: int, upto: int)
    requires
        len <= upto,
        forall|q: int| 0 <= q < upto ==> #[trigger] wc(s, k1, q) == wc(s, k2, q),
    ensures
        is_border(s, k1, len, b) <==> is_border(s, k2, len, b),
{
    if 0 <= b < len {
        assert forall|q: int| 0 <= q < b implies (wc(s, k1, q) == wc(s, k1 + len - b, q) <==> wc(
            s,
            k2,
            q,
        ) == wc(s, k2 + len - b, q)) by {
            assert(wc(s, k1, len - b + q) == wc(s, k2, len - b + q));
        }
        if is_border(s, k1, len, b) {
            assert forall|q: int| 0 <= q < b implies #[trigger] wc(s, k2, q) == wc(
                s,
                k2 + len - b,
                q,
            ) by {
                assert(wc(s, k1, q) == wc(s, k1 + len - b, q));
                assert(wc(s, k1, len - b + q) == wc(s, k2, len - b + q));
            }
        }
        if is_border(s, k2, len, b) {
            assert forall|q: int| 0 <= q < b implies #[trigger] wc(s, k1, q) == wc(
                s,
                k1 + len - b,
                q,
            ) by {
                assert(wc(s, k2, q) == wc(s, k2 + len - b, q));
                assert(wc(s, k1, len - b + q) == wc(s, k2, len - b + q));
            }
        }
    }
}

/// A border of a window grows by one item exactly when the item after the
/// border matches the item that extends the window.
pub proof fn lemma_border_extend(s: Seq<i8>, k: int, len: int, b: int)
    requires
        0 <= b < len,
    ensures
        is_border(s, k, len + 1, b + 1) <==> (is_border(s, k, len, b) && wc(s, k, b) == wc(
            s,
            k,
            len,
        )),
{
    if is_border(s, k, len + 1, b + 1) {
        assert forall|q: int| 0 <= q < b implies #[trigger] wc(s, k, q) == wc(s, k + len - b, q) by {
            assert(wc(s, k, q) == wc(s, k + (len + 1) - (b + 1), q));
        }
        assert(wc(s, k, b) == wc(s, k + (len + 1) - (b + 1), b));
    }
    if is_border(s, k, len, b) && wc(s, k, b) == wc(s, k, len) {
        assert forall|q: int| 0 <= q < b + 1 implies #[trigger] wc(s, k, q) == wc(
            s,
            k + (len + 1) - (b + 1),
            q,
        ) by {
            if q < b {
                assert(wc(s, k, q) == wc(s, k + len - b, q));
            }
        }
    }
}


/// The first place at which two starts read differently, below `m`.
proof fn lemma_first_mismatch(s: Seq<i8>, a: int, c: int, m: int) -> (p: int)
    requires
        exists|q: int| 0 <= q < m && #[trigger] wc(s, a, q) != wc(s, c, q),
    ensures
        0 <= p < m,
        wc(s, a, p) != wc(s, c, p),
        forall|q: int| 0 <= q < p ==> #[trigger] wc(s, a, q) == wc(s, c, q),
    decreases m,
{
    if forall|q: int| 0 <= q < m - 1 ==> #[trigger] wc(s, a, q) == wc(s, c, q) {
        m - 1
    } else {
        lemma_first_mismatch(s, a, c, m - 1)
    }
}

/// Entering the border search for item `j`: the longest proper border of
/// the current window is the first candidate.
pub proof fn lemma_inner_start(s: Seq<i8>, f: Seq<i16>, k: int, j: int)
    requires
        outer_ok(s, f, k, j),
        j < 2 * s.len(),
    ensures
        inner_ok(s, f, k, j, f[j - k - 1] as int),
{
    let len = j - k;
    let i = f[len - 1] as int;
    assert(failure_entry(s, f, k, len - 1));
    assert forall|x: int| #![trigger rotation(s, x)] k < x < j implies {
        &&& x < j - i - 1 ==> lex_lt(rotation(s, k), rotation(s, x))
        &&& is_border(s, k, j - k, j - x) || lex_lt(rotation(s, k), rotation(s, x))
    } by {
        if x < j - i - 1 {
            assert(!is_border(s, k, len, j - x));
        }
    }
}

/// The border search meets a smaller item: the start just after the border
/// becomes the candidate, and the search goes on with its own window.
pub proof fn lemma_step_smaller(s: Seq<i8>, f: Seq<i16>, k: int, j: int, i: int)
    requires
        inner_ok(s, f, k, j, i),
        i >= 0,
        wc(s, k, j - k) < wc(s, k, i + 1),
    ensures
        inner_ok(s, f, j - i - 1, j, f[i] as int),
{
    let len = j - k;
    let k2 = j - i - 1;
    let len2 = i + 1;
    let i2 = f[i] as int;
    assert(k + len - (i + 1) == k2);
    assert forall|q: int| 0 <= q < len2 implies #[trigger] wc(s, k, q) == wc(s, k2, q) by {
        assert(wc(s, k, q) == wc(s, k + len - (i + 1), q));
    }
    assert(wc(s, k2, i + 1) == wc(s, k, len));
    lemma_lex_from_window(s, k2, k, i + 1);
    assert forall|m: int| 0 <= m < len2 implies #[trigger] failure_entry(s, f, k2, m) by {
        assert(failure_entry(s, f, k, m));
        lemma_border_same_window(s, k, k2, m + 1, f[m] + 1, len2);
        assert forall|c: int| f[m] + 1 < c < m + 1 implies !#[trigger] is_border(
            s,
            k2,
            m + 1,
            c,
        ) by {
            lemma_border_same_window(s, k, k2, m + 1, c, len2);
        }
    }
    assert(failure_entry(s, f, k2, i));
    assert forall|x: int| #![trigger rotation(s, x)] 0 <= x < k2 implies lex_lt(
        rotation(s, k2),
        rotation(s, x),
    ) by {
        if x != k {
            lemma_lex_lt_transitive(rotation(s, k2), rotation(s, k), rotation(s, x));
        }
    }
    assert forall|x: int| #![trigger rotation(s, x)] k2 < x < j implies is_border(
        s,
        k2,
        len2,
        j - x,
    ) || lex_lt(rotation(s, k2), rotation(s, x)) by {
        let m = j - x;
        assert(k2 + len2 - m == x);
        if !is_border(s, k2, len2, m) {
            assert(exists|q: int| 0 <= q < m && #[trigger] wc(s, k2, q) != wc(s, x, q)) by {
                let q = choose|q: int| 0 <= q < m && !(#[trigger] wc(s, k2, q) == wc(s, k2 + len2 - m, q));
                assert(wc(s, k2, q) != wc(s, x, q));
            }
            let p = lemma_first_mismatch(s, k2, x, m);
            if wc(s, k2, p) < wc(s, x, p) {
                lemma_lex_from_window(s, k2, x, p);
            } else {
                lemma_lex_from_window(s, x, k2, p);
                lemma_lex_lt_transitive(rotation(s, x), rotation(s, k2), rotation(s, k));
                lemma_lex_lt_asymmetric(rotation(s, x), rotation(s, k));
                assert(is_border(s, k, len, j - x));
                assert(k + len - m == x);
                assert(wc(s, k, p) == wc(s, x, p));
                assert(wc(s, k, p) == wc(s, k2, p));
            }
        }
    }
    assert forall|x: int| #![trigger rotation(s, x)] k2 < x < j implies {
        &&& x < j - i2 - 1 ==> lex_lt(rotation(s, k2), rotation(s, x))
        &&& is_border(s, k2, j - k2, j - x) || lex_lt(rotation(s, k2), rotation(s, x))
    } by {
        if x < j - i2 - 1 {
            assert(!is_border(s, k2, len2, j - x));
        }
    }
}

/// The border search meets a larger item: the candidate stays and the next
/// shorter border is tried.
pub proof fn lemma_step_larger(s: Seq<i8>, f: Seq<i16>, k: int, j: int, i: int)
    requires
        inner_ok(s, f, k, j, i),
        i >= 0,
        wc(s, k, j - k) > wc(s, k, i + 1),
    ensures
        inner_ok(s, f, k, j, f[i] as int),
{
    let len = j - k;
    let i2 = f[i] as int;
    assert(failure_entry(s, f, k, i));
    lemma_border_of_border(s, k, len, i + 1, i2 + 1);
    assert forall|x: int| #![trigger rotation(s, x)] k < x < j implies {
        &&& x < j - i2 - 1 ==> lex_lt(rotation(s, k), rotation(s, x))
        &&& is_border(s, k, j - k, j - x) || lex_lt(rotation(s, k), rotation(s, x))
    } by {
        if x == j - i - 1 {
            assert(k + len - (i + 1) == x);
            assert forall|q: int| 0 <= q < i + 1 implies #[trigger] wc(s, k, q) == wc(s, x, q) by {
                assert(wc(s, k, q) == wc(s, k + len - (i + 1), q));
            }
            assert(wc(s, x, i + 1) == wc(s, k, len));
            lemma_lex_from_window(s, k, x, i + 1);
        } else if j - i - 1 < x < j - i2 - 1 {
            if is_border(s, k, len, j - x) {
                lemma_shorter_border(s, k, len, i + 1, j - x);
            }
        }
    }
    assert forall|b: int|
        i2 + 1 < b < j - k && #[trigger] is_border(s, k, j - k, b) implies wc(s, k, b) != wc(
        s,
        k,
        j - k,
    ) by {
        if b < i + 1 {
            lemma_shorter_border(s, k, len, i + 1, b);
        }
    }
}

/// No border extends and the new item is smaller than the first: the new
/// item starts the new candidate.
pub proof fn lemma_finish_new_start(s: Seq<i8>, f: Seq<i16>, k: int, j: int)
    requires
        inner_ok(s, f, k, j, -1),
        wc(s, k, j - k) < wc(s, k, 0),
    ensures
        outer_ok(s, f.update(0, -1i16), j, j + 1),
{
    let f2 = f.update(0, -1i16);
    assert(forall|q: int| 0 <= q < 0 ==> #[trigger] wc(s, j, q) == wc(s, k, q));
    assert(wc(s, j, 0) == wc(s, k, j - k));
    lemma_lex_from_window(s, j, k, 0);
    assert(is_border(s, j, 1, 0));
    assert(failure_entry(s, f2, j, 0));
    assert forall|x: int| #![trigger rotation(s, x)] 0 <= x < j implies lex_lt(
        rotation(s, j),
        rotation(s, x),
    ) by {
        if x != k {
            lemma_lex_lt_transitive(rotation(s, j), rotation(s, k), rotation(s, x));
        }
    }
}

/// No border extends and the new item is larger than the first: the
/// candidate stays and the window's new item has no border.
pub proof fn lemma_finish_mismatch(s: Seq<i8>, f: Seq<i16>, k: int, j: int)
    requires
        inner_ok(s, f, k, j, -1),
        wc(s, k, j - k) > wc(s, k, 0),
    ensures
        outer_ok(s, f.update(j - k, -1i16), k, j + 1),
{
    let len = j - k;
    let f2 = f.update(len, -1i16);
    assert forall|m: int| 0 <= m < len + 1 implies #[trigger] failure_entry(s, f2, k, m) by {
        if m < len {
            assert(failure_entry(s, f, k, m));
            assert(f2[m] == f[m]);
        } else {
            assert(is_border(s, k, len + 1, 0));
            assert forall|c: int| 0 < c < len + 1 implies !#[trigger] is_border(
                s,
                k,
                len + 1,
                c,
            ) by {
                lemma_border_extend(s, k, len, c - 1);
            }
        }
    }
    assert forall|x: int| #![trigger rotation(s, x)] k < x < j + 1 implies is_border(
        s,
        k,
        j + 1 - k,
        j + 1 - x,
    ) || lex_lt(rotation(s, k), rotation(s, x)) by {
        if x == j {
            assert(forall|q: int| 0 <= q < 0 ==> #[trigger] wc(s, k, q) == wc(s, j, q));
            assert(wc(s, j, 0) == wc(s, k, len));
            lemma_lex_from_window(s, k, j, 0);
        }
    }
}

/// The border search found a border that extends by the new item: the
/// window grows with that border as its longest.
pub proof fn lemma_finish_match(s: Seq<i8>, f: Seq<i16>, k: int, j: int, i: int)
    requires
        inner_ok(s, f, k, j, i),
        wc(s, k, j - k) == wc(s, k, i + 1),
        s.len() <= 16383,
    ensures
        outer_ok(s, f.update(j - k, (i + 1) as i16), k, j + 1),
{
    let len = j - k;
    let f2 = f.update(len, (i + 1) as i16);
    lemma_border_extend(s, k, len, i + 1);
    assert forall|m: int| 0 <= m < len + 1 implies #[trigger] failure_entry(s, f2, k, m) by {
        if m < len {
            assert(failure_entry(s, f, k, m));
            assert(f2[m] == f[m]);
        } else {
            assert(f2[m] == i + 1);
            assert forall|c: int| i + 2 < c < len + 1 implies !#[trigger] is_border(
                s,
                k,
                len + 1,
                c,
            ) by {
                lemma_border_extend(s, k, len, c - 1);
            }
        }
    }
    assert forall|x: int| #![trigger rotation(s, x)] k < x < j + 1 implies is_border(
        s,
        k,
        len + 1,
        j + 1 - x,
    ) || lex_lt(rotation(s, k), rotation(s, x)) by {
        if j - i - 1 < x && !lex_lt(rotation(s, k), rotation(s, x)) {
            let b = j - x;
            assert(is_border(s, k, len, b));
            assert(k + len - b == x);
            if wc(s, k, b) == wc(s, k, len) {
                lemma_border_extend(s, k, len, b);
            } else if wc(s, k, b) < wc(s, k, len) {
                assert forall|q: int| 0 <= q < b implies #[trigger] wc(s, k, q) == wc(s, x, q) by {
                    assert(wc(s, k, q) == wc(s, k + len - b, q));
                }
                assert(wc(s, x, b) == wc(s, k, len));
                lemma_lex_from_window(s, k, x, b);
            } else {
                let y = k + i + 1 - b;
                lemma_shorter_border(s, k, len, i + 1, b);
                assert forall|q: int| 0 <= q < b implies #[trigger] wc(s, y, q) == wc(s, k, q) by {
                    assert(wc(s, k, q) == wc(s, k + (i + 1) - b, q));
                }
                assert(wc(s, y, b) == wc(s, k, i + 1));
                lemma_lex_from_window(s, y, k, b);
                lemma_lex_lt_asymmetric(rotation(s, y), rotation(s, k));
                assert(is_border(s, k, len, j - y));
                assert(k + len - (j - y) == y);
                assert(wc(s, k, b) == wc(s, k + len - (j - y), b));
            }
        }
    }
}

/// When the scan has read two full turns, the candidate is the canonical
/// rotation.
pub proof fn lemma_booth_result(s: Seq<i8>, f: Seq<i16>, k: int)
    requires
        outer_ok(s, f, k, 2 * (s.len() as int)),
    ensures
        k == least_rotation(s),
        0 <= k < s.len(),
{
    let n = s.len() as int;
    if k >= n {
        assert(rotation(s, k - n) =~= rotation(s, k)) by {
            assert forall|m: int| 0 <= m < n implies rotation(s, k - n)[m] == rotation(s, k)[m] by {
                lemma_mod_sub_multiples_vanish(k + m, n);
                assert(k + m - n == k - n + m);
            }
        }
        lemma_lex_lt_irreflexive(rotation(s, k));
        assert(lex_lt(rotation(s, k), rotation(s, k - n)));
    }
    assert forall|x: int| 0 <= x < n implies !lex_lt(rotation(s, x), rotation(s, k)) by {
        lemma_lex_lt_irreflexive(rotation(s, k));
        if x < k {
            lemma_lex_lt_asymmetric(rotation(s, k), rotation(s, x));
        } else if x > k {
            if lex_lt(rotation(s, k), rotation(s, x)) {
                lemma_lex_lt_asymmetric(rotation(s, k), rotation(s, x));
            } else {
                assert(is_border(s, k, 2 * n - k, 2 * n - x));
                assert(k + (2 * n - k) - (2 * n - x) == x);
                assert forall|q: int| 0 <= q < n implies #[trigger] wc(s, k, q) == wc(s, x, q) by {
                    assert(wc(s, k, q) == wc(s, k + (2 * n - k) - (2 * n - x), q));
                }
                lemma_equal_rotations(s, k, x);
            }
        }
    }
    assert(is_least_min_rotation(s, k));
    lemma_least_min_rotation_unique(s, k);
}

} // verus!
