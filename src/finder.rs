use itertools::Itertools;
use vstd::prelude::*;

use crate::card::{card_completion, is_set, lemma_completion_iff_set, Card};

verus! {

/// The triples `(i, j, k)` with `j < k < n`, `k` rising.
pub open spec fn triples_with(n: int, i: int, j: int) -> Seq<(int, int, int)> {
    if j + 1 < n {
        Seq::new((n - j - 1) as nat, |t: int| (i, j, j + 1 + t))
    } else {
        Seq::empty()
    }
}

/// The triples `(i, b, c)` with `j <= b < c < n`, in lexicographic order.
pub open spec fn triples_from_second(n: int, i: int, j: int) -> Seq<(int, int, int)>
    decreases n - j,
{
    if j < n {
        triples_with(n, i, j) + triples_from_second(n, i, j + 1)
    } else {
        Seq::empty()
    }
}

/// The triples `(a, b, c)` with `i <= a < b < c < n`, in lexicographic order.
pub open spec fn triples_from_first(n: int, i: int) -> Seq<(int, int, int)>
    decreases n - i,
{
    if i < n {
        triples_from_second(n, i, i + 1) + triples_from_first(n, i + 1)
    } else {
        Seq::empty()
    }
}

/// Every index triple `i < j < k < n`, in lexicographic order.
pub open spec fn index_triples_spec(n: int) -> Seq<(int, int, int)> {
    triples_from_first(n, 0)
}

/// Index triples held in machine integers, read as mathematical ones.
pub open spec fn triples_view(ts: Seq<(usize, usize, usize)>) -> Seq<(int, int, int)> {
    ts.map_values(|t: (usize, usize, usize)| (t.0 as int, t.1 as int, t.2 as int))
}

/// Relies on itertools' `Itertools::combinations` with `k = 3` over `0..n`:
/// every 3-element combination of the indices, each in increasing order,
/// the combinations in lexicographic order.
#[verifier::external_body]
fn index_triples(n: usize) -> (r: Vec<(usize, usize, usize)>)
    ensures
        triples_view(r@) == index_triples_spec(n as int),
{
    (0..n).combinations(3).map(|v| (v[0], v[1], v[2])).collect()
}

/// The cards of `board` at the positions of `t`.
pub open spec fn cards_at(board: Seq<Card>, t: (int, int, int)) -> (Card, Card, Card) {
    (board[t.0], board[t.1], board[t.2])
}

/// The cards of `board` at the positions of `t` form a set.
pub open spec fn forms_set(board: Seq<Card>, t: (int, int, int)) -> bool {
    is_set(board[t.0], board[t.1], board[t.2])
}

/// The cards at the given index triples of `board` that form a set, in the
/// order of the triples.
pub open spec fn sets_among(board: Seq<Card>, ts: Seq<(int, int, int)>) -> Seq<(Card, Card, Card)>
    decreases ts.len(),
{
    if ts.len() == 0 {
        Seq::empty()
    } else {
        let prev = sets_among(board, ts.drop_last());
        if forms_set(board, ts.last()) {
            prev.push(cards_at(board, ts.last()))
        } else {
            prev
        }
    }
}

/// Every set on `board`, as the triples of its cards, in the lexicographic
/// order of their positions.
pub open spec fn sets_of(board: Seq<Card>) -> Seq<(Card, Card, Card)> {
    sets_among(board, index_triples_spec(board.len() as int))
}

proof fn lemma_triples_in_range(n: int)
    ensures
        forall|t: int|
            0 <= t < index_triples_spec(n).len() ==> {
                let (a, b, c) = #[trigger] index_triples_spec(n)[t];
                0 <= a < b < c < n
            },
{
    lemma_first_in_range(n, 0);
}

proof fn lemma_second_in_range(n: int, i: int, j: int)
    ensures
        forall|t: int|
            0 <= t < triples_from_second(n, i, j).len() ==> {
                let (a, b, c) = #[trigger] triples_from_second(n, i, j)[t];
                a == i && j <= b < c < n
            },
    decreases n - j,
{
    if j < n {
        lemma_second_in_range(n, i, j + 1);
        let l = triples_with(n, i, j);
        let s = triples_from_second(n, i, j);
        assert forall|t: int| 0 <= t < s.len() implies {
            let (a, b, c) = #[trigger] s[t];
            a == i && j <= b < c < n
        } by {
            if t >= l.len() {
                assert(s[t] == triples_from_second(n, i, j + 1)[t - l.len()]);
            }
        }
    }
}

proof fn lemma_first_in_range(n: int, i: int)
    ensures
        forall|t: int|
            0 <= t < triples_from_first(n, i).len() ==> {
                let (a, b, c) = #[trigger] triples_from_first(n, i)[t];
                i <= a < b < c < n
            },
    decreases n - i,
{
    if i < n {
        lemma_second_in_range(n, i, i + 1);
        lemma_first_in_range(n, i + 1);
        let l = triples_from_second(n, i, i + 1);
        let s = triples_from_first(n, i);
        assert forall|t: int| 0 <= t < s.len() implies {
            let (a, b, c) = #[trigger] s[t];
            i <= a < b < c < n
        } by {
            if t < l.len() {
                assert(s[t] == l[t]);
            } else {
                assert(s[t] == triples_from_first(n, i + 1)[t - l.len()]);
            }
        }
    }
}

/// Lists every set on `board`: each 3-card combination, taken in the
/// lexicographic order of positions, whose third card completes the first two.
pub fn find_sets(board: &Vec<Card>) -> (r: Vec<(Card, Card, Card)>)
    ensures
        r@ == sets_of(board@),
{
    let ts = index_triples(board.len());
    proof {
        lemma_triples_in_range(board@.len() as int);
    }
    let ghost tv = index_triples_spec(board@.len() as int);
    let mut r: Vec<(Card, Card, Card)> = Vec::new();
    let mut t: usize = 0;
    while t < ts.len()
        invariant
            triples_view(ts@) == tv,
            tv == index_triples_spec(board@.len() as int),
            t <= ts@.len(),
            r@ == sets_among(board@, tv.take(t as int)),
            forall|u: int|
                0 <= u < tv.len() ==> {
                    let (a, b, c) = #[trigger] tv[u];
                    0 <= a < b < c < board@.len()
                },
        decreases ts.len() - t,
    {
        let (i, j, k) = ts[t];
        assert(tv[t as int] == (i as int, j as int, k as int));
        let x = board[i];
        let y = board[j];
        let z = board[k];
        let w = x.third(&y);
        proof {
            lemma_completion_iff_set(x, y, z);
            assert(tv.take(t as int + 1).drop_last() =~= tv.take(t as int));
        }
        if w == z {
            r.push((x, y, z));
        }
        t = t + 1;
    }
    assert(tv.take(t as int) =~= tv);
    r
}

/// `p` comes strictly before `q` in lexicographic order.
pub open spec fn lex_lt(p: (int, int, int), q: (int, int, int)) -> bool {
    p.0 < q.0 || (p.0 == q.0 && p.1 < q.1) || (p.0 == q.0 && p.1 == q.1 && p.2 < q.2)
}

proof fn lemma_second_len(n: int, i: int, j: int)
    requires
        j <= n,
    ensures
        2 * triples_from_second(n, i, j).len() == (n - j) * (n - j - 1),
    decreases n - j,
{
    if j < n {
        lemma_second_len(n, i, j + 1);
        let ll = triples_with(n, i, j).len() as int;
        let rl = triples_from_second(n, i, j + 1).len() as int;
        assert(ll == n - j - 1);
        assert(2 * (ll + rl) == (n - j) * (n - j - 1)) by (nonlinear_arith)
            requires
                ll == n - j - 1,
                2 * rl == (n - (j + 1)) * (n - (j + 1) - 1),
        ;
        assert(triples_from_second(n, i, j).len() == ll + rl);
    } else {
        assert((n - j) * (n - j - 1) == 0) by (nonlinear_arith)
            requires
                n == j,
        ;
    }
}

proof fn lemma_first_len(n: int, i: int)
    requires
        i <= n,
    ensures
        6 * triples_from_first(n, i).len() == (n - i) * (n - i - 1) * (n - i - 2),
    decreases n - i,
{
    if i < n {
        lemma_second_len(n, i, i + 1);
        lemma_first_len(n, i + 1);
        let ll = triples_from_second(n, i, i + 1).len() as int;
        let rl = triples_from_first(n, i + 1).len() as int;
        assert(6 * (ll + rl) == (n - i) * (n - i - 1) * (n - i - 2)) by (nonlinear_arith)
            requires
                2 * ll == (n - (i + 1)) * (n - (i + 1) - 1),
                6 * rl == (n - (i + 1)) * (n - (i + 1) - 1) * (n - (i + 1) - 2),
        ;
        assert(triples_from_first(n, i).len() == ll + rl);
    } else {
        assert((n - i) * (n - i - 1) * (n - i - 2) == 0) by (nonlinear_arith)
            requires
                n == i,
        ;
    }
}

proof fn lemma_second_complete(n: int, i: int, j: int, b: int, c: int)
    requires
        j <= b < c < n,
    ensures
        triples_from_second(n, i, j).contains((i, b, c)),
    decreases n - j,
{
    let l = triples_with(n, i, j);
    let s = triples_from_second(n, i, j);
    if b == j {
        assert(s[c - j - 1] == (i, b, c));
    } else {
        lemma_second_complete(n, i, j + 1, b, c);
        let r = triples_from_second(n, i, j + 1);
        let u = choose|u: int| 0 <= u < r.len() && r[u] == (i, b, c);
        assert(s[l.len() + u] == (i, b, c));
    }
}

proof fn lemma_first_complete(n: int, i: int, a: int, b: int, c: int)
    requires
        i <= a < b < c < n,
    ensures
        triples_from_first(n, i).contains((a, b, c)),
    decreases n - i,
{
    let l = triples_from_second(n, i, i + 1);
    let s = triples_from_first(n, i);
    if a == i {
        lemma_second_complete(n, i, i + 1, b, c);
        let u = choose|u: int| 0 <= u < l.len() && l[u] == (a, b, c);
        assert(s[u] == (a, b, c));
    } else {
        lemma_first_complete(n, i + 1, a, b, c);
        let r = triples_from_first(n, i + 1);
        let u = choose|u: int| 0 <= u < r.len() && r[u] == (a, b, c);
        assert(s[l.len() + u] == (a, b, c));
    }
}

proof fn lemma_second_sorted(n: int, i: int, j: int)
    ensures
        forall|u: int, v: int|
            0 <= u < v < triples_from_second(n, i, j).len() ==> lex_lt(
                #[trigger] triples_from_second(n, i, j)[u],
                #[trigger] triples_from_second(n, i, j)[v],
            ),
    decreases n - j,
{
    if j < n {
        lemma_second_sorted(n, i, j + 1);
        lemma_second_in_range(n, i, j + 1);
        let l = triples_with(n, i, j);
        let r = triples_from_second(n, i, j + 1);
        let s = triples_from_second(n, i, j);
        assert forall|u: int, v: int| 0 <= u < v < s.len() implies lex_lt(
            #[trigger] s[u],
            #[trigger] s[v],
        ) by {
            if v < l.len() {
            } else if u < l.len() {
                assert(s[v] == r[v - l.len()]);
            } else {
                assert(s[u] == r[u - l.len()]);
                assert(s[v] == r[v - l.len()]);
            }
        }
    }
}

proof fn lemma_first_sorted(n: int, i: int)
    ensures
        forall|u: int, v: int|
            0 <= u < v < triples_from_first(n, i).len() ==> lex_lt(
                #[trigger] triples_from_first(n, i)[u],
                #[trigger] triples_from_first(n, i)[v],
            ),
    decreases n - i,
{
    if i < n {
        lemma_second_sorted(n, i, i + 1);
        lemma_second_in_range(n, i, i + 1);
        lemma_first_sorted(n, i + 1);
        lemma_first_in_range(n, i + 1);
        let l = triples_from_second(n, i, i + 1);
        let r = triples_from_first(n, i + 1);
        let s = triples_from_first(n, i);
        assert forall|u: int, v: int| 0 <= u < v < s.len() implies lex_lt(
            #[trigger] s[u],
            #[trigger] s[v],
        ) by {
            if v < l.len() {
                assert(s[u] == l[u]);
                assert(s[v] == l[v]);
            } else if u < l.len() {
                assert(s[u] == l[u]);
                assert(s[v] == r[v - l.len()]);
            } else {
                assert(s[u] == r[u - l.len()]);
                assert(s[v] == r[v - l.len()]);
            }
        }
    }
}

/// The combinations examined on `n` positions: there are `n choose 3` of
/// them, each an increasing index triple below `n`, every such triple among
/// them, and they come in strictly increasing lexicographic order, so none
/// twice.
pub proof fn lemma_index_triples(n: int)
    requires
        n >= 0,
    ensures
        6 * index_triples_spec(n).len() == n * (n - 1) * (n - 2),
        forall|t: int|
            0 <= t < index_triples_spec(n).len() ==> {
                let (a, b, c) = #[trigger] index_triples_spec(n)[t];
                0 <= a < b < c < n
            },
        forall|a: int, b: int, c: int|
            0 <= a < b < c < n ==> #[trigger] index_triples_spec(n).contains((a, b, c)),
        forall|u: int, v: int|
            0 <= u < v < index_triples_spec(n).len() ==> lex_lt(
                #[trigger] index_triples_spec(n)[u],
                #[trigger] index_triples_spec(n)[v],
            ),
        index_triples_spec(n).no_duplicates(),
{
    lemma_first_len(n, 0);
    lemma_triples_in_range(n);
    lemma_first_sorted(n, 0);
    assert forall|a: int, b: int, c: int| 0 <= a < b < c < n implies #[trigger] index_triples_spec(
        n,
    ).contains((a, b, c)) by {
        lemma_first_complete(n, 0, a, b, c);
    }
}

proof fn lemma_sets_among_contains(board: Seq<Card>, ts: Seq<(int, int, int)>)
    ensures
        forall|x: (Card, Card, Card)|
            #[trigger] sets_among(board, ts).contains(x) <==> exists|u: int|
                0 <= u < ts.len() && forms_set(board, #[trigger] ts[u]) && x == cards_at(
                    board,
                    ts[u],
                ),
    decreases ts.len(),
{
    if ts.len() > 0 {
        let pts = ts.drop_last();
        lemma_sets_among_contains(board, pts);
        let prev = sets_among(board, pts);
        let s = sets_among(board, ts);
        let last = ts.len() - 1;
        assert forall|x: (Card, Card, Card)| #[trigger] s.contains(x) implies exists|u: int|
            0 <= u < ts.len() && forms_set(board, #[trigger] ts[u]) && x == cards_at(
                board,
                ts[u],
            ) by {
            if forms_set(board, ts[last]) && x == cards_at(board, ts[last]) {
            } else {
                let p = choose|p: int| 0 <= p < s.len() && s[p] == x;
                if forms_set(board, ts.last()) {
                    assert(p < prev.len());
                }
                assert(prev[p] == x);
                assert(prev.contains(x));
                let u = choose|u: int|
                    0 <= u < pts.len() && forms_set(board, #[trigger] pts[u]) && x == cards_at(
                        board,
                        pts[u],
                    );
                assert(ts[u] == pts[u]);
            }
        }
        assert forall|x: (Card, Card, Card)|
            (exists|u: int|
                0 <= u < ts.len() && forms_set(board, #[trigger] ts[u]) && x == cards_at(
                    board,
                    ts[u],
                )) implies #[trigger] s.contains(x) by {
            let u = choose|u: int|
                0 <= u < ts.len() && forms_set(board, #[trigger] ts[u]) && x == cards_at(
                    board,
                    ts[u],
                );
            if u == last {
                assert(s[prev.len() as int] == x);
            } else {
                assert(pts[u] == ts[u]);
                assert(prev.contains(x));
                let p = choose|p: int| 0 <= p < prev.len() && prev[p] == x;
                assert(s[p] == x);
            }
        }
    }
}

proof fn lemma_sets_among_no_duplicates(board: Seq<Card>, ts: Seq<(int, int, int)>)
    requires
        board.no_duplicates(),
        ts.no_duplicates(),
        forall|u: int|
            0 <= u < ts.len() ==> {
                let (a, b, c) = #[trigger] ts[u];
                0 <= a < board.len() && 0 <= b < board.len() && 0 <= c < board.len()
            },
    ensures
        sets_among(board, ts).no_duplicates(),
    decreases ts.len(),
{
    if ts.len() > 0 {
        let pts = ts.drop_last();
        assert forall|u: int|
            0 <= u < pts.len() ==> {
                let (a, b, c) = #[trigger] pts[u];
                0 <= a < board.len() && 0 <= b < board.len() && 0 <= c < board.len()
            } by {
            if 0 <= u < pts.len() {
                assert(pts[u] == ts[u]);
            }
        }
        lemma_sets_among_no_duplicates(board, pts);
        lemma_sets_among_contains(board, pts);
        let prev = sets_among(board, pts);
        let last = ts.len() - 1;
        if forms_set(board, ts.last()) {
            let c = cards_at(board, ts.last());
            if prev.contains(c) {
                let u = choose|u: int|
                    0 <= u < pts.len() && forms_set(board, #[trigger] pts[u]) && c == cards_at(
                        board,
                        pts[u],
                    );
                assert(pts[u] == ts[u]);
                assert(ts[u] == ts[last]);
            }
            assert(sets_among(board, ts) == prev.push(c));
            assert forall|p: int, q: int|
                0 <= p < prev.push(c).len() && 0 <= q < prev.push(c).len() && p != q implies
                prev.push(c)[p] != prev.push(c)[q] by {
                if p == prev.len() {
                    assert(prev.contains(prev[q]));
                } else if q == prev.len() {
                    assert(prev.contains(prev[p]));
                }
            }
        }
    }
}

/// The search examines every combination of three positions exactly once,
/// `n choose 3` of them for a board of `n` cards, and reports exactly the
/// combinations whose cards form a set.
pub proof fn lemma_sets_of_exact(board: Seq<Card>)
    ensures
        6 * index_triples_spec(board.len() as int).len() == (board.len() as int) * (board.len()
            - 1) * (board.len() - 2),
        forall|x: (Card, Card, Card)|
            #[trigger] sets_of(board).contains(x) <==> exists|i: int, j: int, k: int|
                0 <= i < j < k < board.len() && is_set(board[i], board[j], board[k]) && x == (
                    #[trigger] board[i],
                    #[trigger] board[j],
                    #[trigger] board[k],
                ),
{
    let n = board.len() as int;
    let ts = index_triples_spec(n);
    lemma_index_triples(n);
    lemma_sets_among_contains(board, ts);
    assert forall|x: (Card, Card, Card)| #[trigger] sets_of(board).contains(x) implies exists|
        i: int,
        j: int,
        k: int,
    |
        0 <= i < j < k < board.len() && is_set(board[i], board[j], board[k]) && x == (
            #[trigger] board[i],
            #[trigger] board[j],
            #[trigger] board[k],
        ) by {
        let u = choose|u: int|
            0 <= u < ts.len() && forms_set(board, #[trigger] ts[u]) && x == cards_at(board, ts[u]);
        let (i, j, k) = ts[u];
        assert(x == (board[i], board[j], board[k]));
    }
    assert forall|x: (Card, Card, Card)|
        (exists|i: int, j: int, k: int|
            0 <= i < j < k < board.len() && is_set(board[i], board[j], board[k]) && x == (
                #[trigger] board[i],
                #[trigger] board[j],
                #[trigger] board[k],
            )) implies #[trigger] sets_of(board).contains(x) by {
        let (i, j, k) = choose|i: int, j: int, k: int|
            0 <= i < j < k < board.len() && is_set(board[i], board[j], board[k]) && x == (
                #[trigger] board[i],
                #[trigger] board[j],
                #[trigger] board[k],
            );
        assert(ts.contains((i, j, k)));
        let u = choose|u: int| 0 <= u < ts.len() && ts[u] == (i, j, k);
        assert(forms_set(board, ts[u]) && x == cards_at(board, ts[u]));
    }
}

/// On a board of distinct cards, no set is reported twice, and each reported
/// set is three distinct cards of the board that form a set.
pub proof fn lemma_sets_of_distinct(board: Seq<Card>)
    requires
        board.no_duplicates(),
    ensures
        sets_of(board).no_duplicates(),
        forall|p: int|
            0 <= p < sets_of(board).len() ==> {
                let (x, y, z) = #[trigger] sets_of(board)[p];
                &&& x != y && y != z && x != z
                &&& board.contains(x) && board.contains(y) && board.contains(z)
                &&& is_set(x, y, z)
            },
{
    let n = board.len() as int;
    let ts = index_triples_spec(n);
    lemma_index_triples(n);
    lemma_sets_among_no_duplicates(board, ts);
    lemma_sets_of_exact(board);
    assert forall|p: int| 0 <= p < sets_of(board).len() implies {
        let (x, y, z) = #[trigger] sets_of(board)[p];
        &&& x != y && y != z && x != z
        &&& board.contains(x) && board.contains(y) && board.contains(z)
        &&& is_set(x, y, z)
    } by {
        let t = sets_of(board)[p];
        assert(sets_of(board).contains(t));
        let (i, j, k) = choose|i: int, j: int, k: int|
            0 <= i < j < k < board.len() && is_set(board[i], board[j], board[k]) && t == (
                #[trigger] board[i],
                #[trigger] board[j],
                #[trigger] board[k],
            );
    }
}

} // verus!
