//! The mathematical model: a relation over `{0, .., n-1}` is a square
//! `Seq<Seq<bool>>` whose cell `(i, j)` tells whether `i` relates to `j`.

use vstd::prelude::*;

verus! {

/// Every row of `m` is as long as `m` has rows.
pub open spec fn is_square(m: Seq<Seq<bool>>) -> bool {
    forall|i: int| 0 <= i < m.len() ==> #[trigger] m[i].len() == m.len()
}

/// `i` and `j` both index an element of the relation `m`.
pub open spec fn in_range(m: Seq<Seq<bool>>, i: int, j: int) -> bool {
    0 <= i < m.len() && 0 <= j < m.len()
}

/// Every element relates to itself.
pub open spec fn reflexive(m: Seq<Seq<bool>>) -> bool {
    forall|i: int| 0 <= i < m.len() ==> #[trigger] m[i][i]
}

/// No element relates to itself.
pub open spec fn irreflexive(m: Seq<Seq<bool>>) -> bool {
    forall|i: int| 0 <= i < m.len() ==> !#[trigger] m[i][i]
}

/// Each pair holds in both directions or in neither.
pub open spec fn symmetric(m: Seq<Seq<bool>>) -> bool {
    forall|i: int, j: int| in_range(m, i, j) ==> #[trigger] m[i][j] == m[j][i]
}

/// No two distinct elements relate in both directions.
pub open spec fn antisymmetric(m: Seq<Seq<bool>>) -> bool {
    forall|i: int, j: int| in_range(m, i, j) && i != j ==> !(#[trigger] m[i][j] && m[j][i])
}

/// No pair relates in both directions, an element and itself included.
pub open spec fn asymmetric(m: Seq<Seq<bool>>) -> bool {
    forall|i: int, j: int| in_range(m, i, j) ==> !(#[trigger] m[i][j] && m[j][i])
}

/// `m` with every element related to itself.
pub open spec fn reflexive_closure(m: Seq<Seq<bool>>) -> Seq<Seq<bool>> {
    Seq::new(m.len(), |i: int| Seq::new(m.len(), |j: int| m[i][j] || i == j))
}

/// `m` with every pair that holds in one direction set in both.
pub open spec fn symmetric_closure(m: Seq<Seq<bool>>) -> Seq<Seq<bool>> {
    Seq::new(m.len(), |i: int| Seq::new(m.len(), |j: int| m[i][j] || m[j][i]))
}

/// Every pair `(i, j)` of `m` is also a pair of `c`.
pub open spec fn includes(m: Seq<Seq<bool>>, c: Seq<Seq<bool>>) -> bool {
    forall|i: int, j: int| in_range(m, i, j) && #[trigger] m[i][j] ==> c[i][j]
}

/// `i` relates to `j` whenever `i` relates to some `k` that relates to `j`.
pub open spec fn transitive(m: Seq<Seq<bool>>) -> bool {
    forall|i: int, j: int, k: int|
        #![trigger m[i][k], m[k][j]]
        in_range(m, i, j) && 0 <= k < m.len() && m[i][k] && m[k][j] ==> m[i][j]
}

/// Row `i` of `m` is closed: whatever `i` reaches in two steps it reaches in one.
pub open spec fn row_closed(m: Seq<Seq<bool>>, i: int) -> bool {
    forall|k: int, j: int|
        #![trigger m[i][k], m[k][j]]
        0 <= k < m.len() && 0 <= j < m.len() && m[i][k] && m[k][j] ==> m[i][j]
}

/// Every transitive relation on the same set that contains `m` contains `c`.
pub open spec fn below_every_transitive_extension(m: Seq<Seq<bool>>, c: Seq<Seq<bool>>) -> bool {
    forall|t: Seq<Seq<bool>>|
        #![trigger includes(m, t), transitive(t)]
        t.len() == m.len() && is_square(t) && includes(m, t) && transitive(t) ==> includes(c, t)
}

/// `c` is the transitive closure of `m`: the least transitive relation on the
/// same set that contains `m`.
pub open spec fn is_transitive_closure(m: Seq<Seq<bool>>, c: Seq<Seq<bool>>) -> bool {
    &&& c.len() == m.len()
    &&& is_square(c)
    &&& includes(m, c)
    &&& transitive(c)
    &&& below_every_transitive_extension(m, c)
}

/// Two steps through an intermediate below `w` are already one step in `m`.
pub open spec fn closed_through(m: Seq<Seq<bool>>, w: int) -> bool {
    forall|i: int, j: int, k: int|
        #![trigger m[i][k], m[k][j]]
        in_range(m, i, j) && 0 <= k < w && m[i][k] && m[k][j] ==> m[i][j]
}

/// `row` after the pass of Warshall's algorithm through the intermediate `k`,
/// where `pivot` is row `k`.
pub open spec fn pivot_row(row: Seq<bool>, k: int, pivot: Seq<bool>) -> Seq<bool> {
    Seq::new(row.len(), |j: int| row[j] || (row[k] && pivot[j]))
}

/// The pass of Warshall's algorithm through the intermediate `k`.
pub open spec fn warshall_step(m: Seq<Seq<bool>>, k: int) -> Seq<Seq<bool>> {
    Seq::new(m.len(), |i: int| pivot_row(m[i], k, m[k]))
}

/// What holds of the matrix of Warshall's algorithm before the pass through
/// `k`, for the input `m`.
pub open spec fn warshall_invariant(m: Seq<Seq<bool>>, cur: Seq<Seq<bool>>, k: int) -> bool {
    &&& cur.len() == m.len()
    &&& is_square(cur)
    &&& includes(m, cur)
    &&& below_every_transitive_extension(m, cur)
    &&& closed_through(cur, k)
}

/// The input itself satisfies the invariant before the first pass.
pub proof fn lemma_warshall_start(m: Seq<Seq<bool>>)
    requires
        is_square(m),
    ensures
        warshall_invariant(m, m, 0),
{
    assert forall|t: Seq<Seq<bool>>|
        #![trigger includes(m, t), transitive(t)]
        t.len() == m.len() && is_square(t) && includes(m, t) && transitive(t) implies includes(m, t) by {}
}

/// One pass of Warshall's algorithm keeps the invariant, one intermediate further.
pub proof fn lemma_warshall_step(m: Seq<Seq<bool>>, cur: Seq<Seq<bool>>, k: int)
    requires
        0 <= k < m.len(),
        warshall_invariant(m, cur, k),
    ensures
        warshall_invariant(m, warshall_step(cur, k), k + 1),
{
    let s = warshall_step(cur, k);
    let n = cur.len();
    assert forall|i: int| 0 <= i < n implies #[trigger] s[i].len() == n by {}
    assert forall|i: int| 0 <= i < n implies s[i][k] == cur[i][k] && s[k][i] == cur[k][i] by {}
    assert forall|i: int, j: int| in_range(cur, i, j) implies
        #[trigger] s[i][j] == (cur[i][j] || (cur[i][k] && cur[k][j])) by {}
    assert forall|t: Seq<Seq<bool>>|
        #![trigger includes(m, t), transitive(t)]
        t.len() == m.len() && is_square(t) && includes(m, t) && transitive(t) implies includes(s, t) by {
        assert(includes(cur, t));
        assert forall|i: int, j: int| in_range(s, i, j) && #[trigger] s[i][j] implies t[i][j] by {
            if !cur[i][j] {
                assert(t[i][k] && t[k][j]);
            }
        }
    }
    assert forall|i: int, j: int, w: int|
        #![trigger s[i][w], s[w][j]]
        in_range(s, i, j) && 0 <= w < k + 1 && s[i][w] && s[w][j] implies s[i][j] by {
        if w < k {
            if cur[i][w] && cur[w][j] {
                assert(cur[i][j]);
            } else if cur[i][w] {
                assert(cur[w][k] && cur[k][j]);
                assert(cur[i][k]);
            } else if cur[w][j] {
                assert(cur[i][k] && cur[k][w]);
                assert(cur[k][j]);
            } else {
                assert(cur[i][k] && cur[k][j]);
            }
        }
    }
}

/// After the last pass the matrix is the transitive closure of the input.
pub proof fn lemma_warshall_done(m: Seq<Seq<bool>>, cur: Seq<Seq<bool>>)
    requires
        warshall_invariant(m, cur, m.len() as int),
    ensures
        is_transitive_closure(m, cur),
{
}

/// A relation is transitive exactly when each of its rows is closed.
pub proof fn lemma_transitive_by_rows(m: Seq<Seq<bool>>)
    ensures
        transitive(m) <==> (forall|i: int| 0 <= i < m.len() ==> #[trigger] row_closed(m, i)),
{
    if forall|i: int| 0 <= i < m.len() ==> #[trigger] row_closed(m, i) {
        assert forall|i: int, j: int, k: int|
            #![trigger m[i][k], m[k][j]]
            in_range(m, i, j) && 0 <= k < m.len() && m[i][k] && m[k][j] implies m[i][j] by {
            assert(row_closed(m, i));
        }
    }
}

/// A relation is asymmetric exactly when it is antisymmetric and irreflexive.
pub proof fn lemma_asymmetric_iff_antisymmetric_irreflexive(m: Seq<Seq<bool>>)
    ensures
        antisymmetric(m) && irreflexive(m) <==> asymmetric(m),
{
    if antisymmetric(m) && irreflexive(m) {
        assert forall|i: int, j: int| in_range(m, i, j) implies !(#[trigger] m[i][j] && m[j][i]) by {
            if i == j {
                assert(!m[i][i]);
            }
        }
    }
    if asymmetric(m) {
        assert forall|i: int| 0 <= i < m.len() implies !#[trigger] m[i][i] by {
            assert(!(m[i][i] && m[i][i]));
        }
    }
}

/// Taking the reflexive closure twice gives what taking it once gives.
pub proof fn lemma_reflexive_closure_idempotent(m: Seq<Seq<bool>>)
    ensures
        reflexive_closure(reflexive_closure(m)) == reflexive_closure(m),
{
    let r = reflexive_closure(m);
    assert forall|i: int| 0 <= i < m.len() implies #[trigger] reflexive_closure(r)[i] == r[i] by {
        assert(reflexive_closure(r)[i] =~= r[i]);
    }
    assert(reflexive_closure(r) =~= r);
}

/// Taking the symmetric closure twice gives what taking it once gives.
pub proof fn lemma_symmetric_closure_idempotent(m: Seq<Seq<bool>>)
    ensures
        symmetric_closure(symmetric_closure(m)) == symmetric_closure(m),
{
    let s = symmetric_closure(m);
    assert forall|i: int| 0 <= i < m.len() implies #[trigger] symmetric_closure(s)[i] == s[i] by {
        assert(symmetric_closure(s)[i] =~= s[i]);
    }
    assert(symmetric_closure(s) =~= s);
}

/// The reflexive closure is reflexive and contains the relation.
pub proof fn lemma_reflexive_closure_correct(m: Seq<Seq<bool>>)
    requires
        is_square(m),
    ensures
        is_square(reflexive_closure(m)),
        reflexive(reflexive_closure(m)),
        includes(m, reflexive_closure(m)),
{
}

/// The symmetric closure is symmetric and contains the relation.
pub proof fn lemma_symmetric_closure_correct(m: Seq<Seq<bool>>)
    requires
        is_square(m),
    ensures
        is_square(symmetric_closure(m)),
        symmetric(symmetric_closure(m)),
        includes(m, symmetric_closure(m)),
{
}

/// Two relations on the same set that contain each other are equal.
proof fn lemma_mutual_inclusion(a: Seq<Seq<bool>>, b: Seq<Seq<bool>>)
    requires
        a.len() == b.len(),
        is_square(a),
        is_square(b),
        includes(a, b),
        includes(b, a),
    ensures
        a == b,
{
    assert forall|i: int| 0 <= i < a.len() implies #[trigger] a[i] == b[i] by {
        assert forall|j: int| 0 <= j < a.len() implies a[i][j] == b[i][j] by {
            if a[i][j] {
                assert(b[i][j]);
            }
            if b[i][j] {
                assert(a[i][j]);
            }
        }
        assert(a[i] =~= b[i]);
    }
    assert(a =~= b);
}

/// A relation has one transitive closure: any two computations of it, in
/// whatever order or on however many threads, agree cell for cell.
pub proof fn lemma_transitive_closure_unique(m: Seq<Seq<bool>>, c1: Seq<Seq<bool>>, c2: Seq<Seq<bool>>)
    requires
        is_transitive_closure(m, c1),
        is_transitive_closure(m, c2),
    ensures
        c1 == c2,
{
    assert(includes(m, c2) && transitive(c2));
    assert(includes(m, c1) && transitive(c1));
    lemma_mutual_inclusion(c1, c2);
}

/// The transitive closure of any relation is transitive.
pub proof fn lemma_transitive_closure_is_transitive(m: Seq<Seq<bool>>, c: Seq<Seq<bool>>)
    requires
        is_transitive_closure(m, c),
    ensures
        transitive(c),
{
}

/// The transitive closure only adds pairs: every pair of the relation stays.
pub proof fn lemma_transitive_closure_keeps_pairs(m: Seq<Seq<bool>>, c: Seq<Seq<bool>>)
    requires
        is_transitive_closure(m, c),
    ensures
        forall|i: int, j: int| in_range(m, i, j) && #[trigger] m[i][j] ==> c[i][j],
{
}

/// Taking the transitive closure twice gives what taking it once gives.
pub proof fn lemma_transitive_closure_idempotent(m: Seq<Seq<bool>>, c: Seq<Seq<bool>>, cc: Seq<Seq<bool>>)
    requires
        is_transitive_closure(m, c),
        is_transitive_closure(c, cc),
    ensures
        cc == c,
{
    assert(includes(c, c) && transitive(c));
    lemma_mutual_inclusion(cc, c);
}

/// A square relation is transitive exactly when it equals its transitive closure.
pub proof fn lemma_transitive_iff_own_closure(m: Seq<Seq<bool>>, c: Seq<Seq<bool>>)
    requires
        is_square(m),
        is_transitive_closure(m, c),
    ensures
        transitive(m) <==> m == c,
{
    if transitive(m) {
        assert(includes(m, m));
        lemma_mutual_inclusion(m, c);
    }
}

} // verus!
