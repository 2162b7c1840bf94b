use vstd::prelude::*;
use crate::keymap::{keys_ordered, as_map, key_index, lemma_key_index};
use crate::text::{chars_less, chars_of, order_chars, KeyOrder, lemma_chars_less_irreflexive,
    lemma_chars_less_transitive, lemma_chars_less_total};

verus! {

/// A named count, by its name's characters.
pub type Tallied = (Seq<char>, u64);

/// `a` comes before `b` in a ranking: a larger count first, and among equal
/// counts the name that comes first in string order (a stable sort by
/// descending count of a list held in key order gives exactly this order).
pub open spec fn ranks_before(a: Tallied, b: Tallied) -> bool {
    a.1 > b.1 || (a.1 == b.1 && chars_less(a.0, b.0))
}

/// Every element of `r` ranks before every later one.
pub open spec fn ranked_strictly(r: Seq<Tallied>) -> bool {
    forall|i: int, j: int| 0 <= i < j < r.len() ==> ranks_before(#[trigger] r[i], #[trigger] r[j])
}

/// `r` holds the elements of `s`, each once, in ranking order.
pub open spec fn is_ranking(r: Seq<Tallied>, s: Seq<Tallied>) -> bool {
    &&& ranked_strictly(r)
    &&& forall|x: Tallied| r.contains(x) <==> s.contains(x)
}

/// `x` is an entry of the map `m`.
pub open spec fn map_has_entry(m: Map<Seq<char>, u64>, x: Tallied) -> bool {
    m.dom().contains(x.0) && m[x.0] == x.1
}

/// The entries of the map `m` in ranking order.
pub open spec fn map_ranking(m: Map<Seq<char>, u64>) -> Seq<Tallied> {
    choose|r: Seq<Tallied>| ranked_strictly(r) && forall|x: Tallied| r.contains(x) <==> map_has_entry(m, x)
}

/// The view of a list of named counts.
pub open spec fn tallied_view(v: Seq<(String, u64)>) -> Seq<Tallied> {
    v.map_values(|e: (String, u64)| (e.0@, e.1))
}

/// No element of `s` occurs twice.
pub open spec fn distinct(s: Seq<Tallied>) -> bool {
    forall|i: int, j: int| 0 <= i < j < s.len() ==> s[i] != s[j]
}

proof fn lemma_ranks_irreflexive(a: Tallied)
    ensures
        !ranks_before(a, a),
{
    lemma_chars_less_irreflexive(a.0);
}

proof fn lemma_ranks_transitive(a: Tallied, b: Tallied, c: Tallied)
    requires
        ranks_before(a, b),
        ranks_before(b, c),
    ensures
        ranks_before(a, c),
{
    if a.1 == b.1 && b.1 == c.1 {
        lemma_chars_less_transitive(a.0, b.0, c.0);
    }
}

proof fn lemma_ranks_total(a: Tallied, b: Tallied)
    requires
        a != b,
    ensures
        ranks_before(a, b) || ranks_before(b, a),
{
    lemma_chars_less_total(a.0, b.0);
}

proof fn lemma_ranks_asymmetric(a: Tallied, b: Tallied)
    requires
        ranks_before(a, b),
    ensures
        !ranks_before(b, a),
{
    if ranks_before(b, a) {
        lemma_ranks_transitive(a, b, a);
        lemma_ranks_irreflexive(a);
    }
}

/// Two rankings of the same elements are equal: a ranking is determined by
/// the elements it ranks.
pub proof fn lemma_ranking_unique(r1: Seq<Tallied>, r2: Seq<Tallied>)
    requires
        ranked_strictly(r1),
        ranked_strictly(r2),
        forall|x: Tallied| r1.contains(x) <==> r2.contains(x),
    ensures
        r1 == r2,
    decreases r1.len(),
{
    if r1.len() == 0 {
        if r2.len() > 0 {
            assert(r2.contains(r2[0]));
        }
        assert(r1 =~= r2);
    } else {
        assert(r1.contains(r1[0]));
        let m = choose|m: int| 0 <= m < r2.len() && #[trigger] r2[m] == r1[0];
        assert(r2.contains(r2[0]));
        let n = choose|n: int| 0 <= n < r1.len() && #[trigger] r1[n] == r2[0];
        if m > 0 {
            assert(ranks_before(r2[0], r2[m]));
            if n == 0 {
                lemma_ranks_irreflexive(r1[0]);
            } else {
                assert(ranks_before(r1[0], r1[n]));
                lemma_ranks_asymmetric(r1[0], r2[0]);
            }
        }
        assert(r1[0] == r2[0]);
        let t1 = r1.drop_first();
        let t2 = r2.drop_first();
        assert forall|x: Tallied| t1.contains(x) <==> t2.contains(x) by {
            if t1.contains(x) {
                let k = choose|k: int| 0 <= k < t1.len() && #[trigger] t1[k] == x;
                assert(r1[k + 1] == x);
                assert(ranks_before(r1[0], r1[k + 1]));
                lemma_ranks_irreflexive(x);
                assert(r2.contains(x));
                let l = choose|l: int| 0 <= l < r2.len() && #[trigger] r2[l] == x;
                assert(l != 0);
                assert(t2[l - 1] == x);
            }
            if t2.contains(x) {
                let k = choose|k: int| 0 <= k < t2.len() && #[trigger] t2[k] == x;
                assert(r2[k + 1] == x);
                assert(ranks_before(r2[0], r2[k + 1]));
                lemma_ranks_irreflexive(x);
                assert(r1.contains(x));
                let l = choose|l: int| 0 <= l < r1.len() && #[trigger] r1[l] == x;
                assert(l != 0);
                assert(t1[l - 1] == x);
            }
        }
        assert forall|i: int, j: int| 0 <= i < j < t1.len() implies ranks_before(#[trigger] t1[i], #[trigger] t1[j]) by {
            assert(t1[i] == r1[i + 1] && t1[j] == r1[j + 1]);
        }
        assert forall|i: int, j: int| 0 <= i < j < t2.len() implies ranks_before(#[trigger] t2[i], #[trigger] t2[j]) by {
            assert(t2[i] == r2[i + 1] && t2[j] == r2[j + 1]);
        }
        lemma_ranking_unique(t1, t2);
        assert(r1 == seq![r1[0]] + t1);
        assert(r2 == seq![r2[0]] + t2);
    }
}

/// `x` put into the ranking `r` at its place.
pub open spec fn insert_ranked(r: Seq<Tallied>, x: Tallied) -> Seq<Tallied>
    decreases r.len(),
{
    if r.len() == 0 {
        seq![x]
    } else if ranks_before(r[0], x) {
        seq![r[0]] + insert_ranked(r.drop_first(), x)
    } else {
        seq![x] + r
    }
}

proof fn lemma_insert_ranked(r: Seq<Tallied>, x: Tallied)
    requires
        ranked_strictly(r),
        !r.contains(x),
    ensures
        ranked_strictly(insert_ranked(r, x)),
        forall|y: Tallied| insert_ranked(r, x).contains(y) <==> (r.contains(y) || y == x),
    decreases r.len(),
{
    let t = insert_ranked(r, x);
    if r.len() == 0 {
        assert(t =~= seq![x]);
        assert forall|y: Tallied| t.contains(y) <==> (r.contains(y) || y == x) by {
            if t.contains(y) {
                let k = choose|k: int| 0 <= k < t.len() && #[trigger] t[k] == y;
            }
            if y == x {
                assert(t[0] == x);
            }
        }
    } else {
        let d = r.drop_first();
        assert forall|i: int, j: int| 0 <= i < j < d.len() implies ranks_before(#[trigger] d[i], #[trigger] d[j]) by {
            assert(d[i] == r[i + 1] && d[j] == r[j + 1]);
        }
        assert(!d.contains(x)) by {
            if d.contains(x) {
                let k = choose|k: int| 0 <= k < d.len() && #[trigger] d[k] == x;
                assert(r[k + 1] == x);
            }
        }
        assert forall|y: Tallied| r.contains(y) <==> (y == r[0] || d.contains(y)) by {
            if r.contains(y) {
                let k = choose|k: int| 0 <= k < r.len() && #[trigger] r[k] == y;
                if k > 0 {
                    assert(d[k - 1] == y);
                }
            }
            if d.contains(y) {
                let k = choose|k: int| 0 <= k < d.len() && #[trigger] d[k] == y;
                assert(r[k + 1] == y);
            }
            if y == r[0] {
                assert(r.contains(r[0]));
            }
        }
        if ranks_before(r[0], x) {
            let u = insert_ranked(d, x);
            lemma_insert_ranked(d, x);
            assert(t == seq![r[0]] + u);
            assert forall|y: Tallied| t.contains(y) <==> (r.contains(y) || y == x) by {
                if t.contains(y) {
                    let k = choose|k: int| 0 <= k < t.len() && #[trigger] t[k] == y;
                    if k > 0 {
                        assert(u[k - 1] == y);
                    }
                }
                if y == r[0] {
                    assert(t[0] == y);
                } else if u.contains(y) {
                    let k = choose|k: int| 0 <= k < u.len() && #[trigger] u[k] == y;
                    assert(t[k + 1] == y);
                }
            }
            assert forall|i: int, j: int| 0 <= i < j < t.len() implies ranks_before(#[trigger] t[i], #[trigger] t[j]) by {
                if i == 0 {
                    assert(u.contains(t[j])) by {
                        assert(u[j - 1] == t[j]);
                    }
                    if t[j] != x {
                        assert(d.contains(t[j]));
                        let k = choose|k: int| 0 <= k < d.len() && #[trigger] d[k] == t[j];
                        assert(r[k + 1] == t[j]);
                    }
                } else {
                    assert(t[i] == u[i - 1] && t[j] == u[j - 1]);
                }
            }
        } else {
            assert(r.contains(r[0]));
            lemma_ranks_total(r[0], x);
            assert(t == seq![x] + r);
            assert forall|y: Tallied| t.contains(y) <==> (r.contains(y) || y == x) by {
                if t.contains(y) {
                    let k = choose|k: int| 0 <= k < t.len() && #[trigger] t[k] == y;
                    if k > 0 {
                        assert(r[k - 1] == y);
                    }
                }
                if y == x {
                    assert(t[0] == y);
                } else if r.contains(y) {
                    let k = choose|k: int| 0 <= k < r.len() && #[trigger] r[k] == y;
                    assert(t[k + 1] == y);
                }
            }
            assert forall|i: int, j: int| 0 <= i < j < t.len() implies ranks_before(#[trigger] t[i], #[trigger] t[j]) by {
                if i == 0 {
                    assert(t[j] == r[j - 1]);
                    if j > 1 {
                        assert(ranks_before(r[0], r[j - 1]));
                        lemma_ranks_transitive(x, r[0], r[j - 1]);
                    }
                } else {
                    assert(t[i] == r[i - 1] && t[j] == r[j - 1]);
                }
            }
        }
    }
}

/// Distinct elements always have a ranking.
pub proof fn lemma_ranking_exists(s: Seq<Tallied>) -> (r: Seq<Tallied>)
    requires
        distinct(s),
    ensures
        is_ranking(r, s),
    decreases s.len(),
{
    if s.len() == 0 {
        let r = Seq::<Tallied>::empty();
        assert forall|x: Tallied| r.contains(x) <==> s.contains(x) by {
            if s.contains(x) {
                let k = choose|k: int| 0 <= k < s.len() && #[trigger] s[k] == x;
            }
        }
        r
    } else {
        let d = s.drop_last();
        let x = s.last();
        assert forall|i: int, j: int| 0 <= i < j < d.len() implies d[i] != d[j] by {
            assert(d[i] == s[i] && d[j] == s[j]);
        }
        let r0 = lemma_ranking_exists(d);
        assert(!r0.contains(x)) by {
            if r0.contains(x) {
                assert(d.contains(x));
                let k = choose|k: int| 0 <= k < d.len() && #[trigger] d[k] == x;
                assert(s[k] == s[s.len() - 1]);
            }
        }
        lemma_insert_ranked(r0, x);
        let r = insert_ranked(r0, x);
        assert forall|y: Tallied| r.contains(y) <==> s.contains(y) by {
            if s.contains(y) {
                let k = choose|k: int| 0 <= k < s.len() && #[trigger] s[k] == y;
                if k < s.len() - 1 {
                    assert(d[k] == y);
                }
            }
            if d.contains(y) {
                let k = choose|k: int| 0 <= k < d.len() && #[trigger] d[k] == y;
                assert(s[k] == y);
            }
            if y == x {
                assert(s[s.len() - 1] == y);
            }
        }
        r
    }
}

/// A ranking of entries kept in key order is the ranking of the map they describe.
pub proof fn lemma_map_ranking(r: Seq<Tallied>, s: Seq<Tallied>)
    requires
        is_ranking(r, s),
        keys_ordered(s),
    ensures
        map_ranking(as_map(s)) == r,
        forall|x: Tallied| r.contains(x) <==> map_has_entry(as_map(s), x),
{
    let m = as_map(s);
    assert forall|x: Tallied| r.contains(x) <==> map_has_entry(m, x) by {
        if s.contains(x) {
            let i = choose|i: int| 0 <= i < s.len() && #[trigger] s[i] == x;
            lemma_key_index(s, i);
        }
        if map_has_entry(m, x) {
            let i = key_index(s, x.0);
            lemma_key_index(s, i);
            assert(s[i] == x);
        }
    }
    let q = map_ranking(m);
    assert(ranked_strictly(q) && forall|x: Tallied| q.contains(x) <==> map_has_entry(m, x));
    lemma_ranking_unique(q, r);
}

/// Entries kept in key order are distinct.
pub proof fn lemma_ordered_distinct(s: Seq<Tallied>)
    requires
        keys_ordered(s),
    ensures
        distinct(s),
{
    assert forall|i: int, j: int| 0 <= i < j < s.len() implies s[i] != s[j] by {
        assert(chars_less(s[i].0, s[j].0));
        lemma_chars_less_irreflexive(s[i].0);
    }
}

/// Whether `a` ranks before `b`.
fn ranks_before_exec(a: &(String, u64), b: &(String, u64)) -> (r: bool)
    ensures
        r == ranks_before((a.0@, a.1), (b.0@, b.1)),
{
    if a.1 != b.1 {
        a.1 > b.1
    } else {
        let av = chars_of(a.0.as_str());
        let bv = chars_of(b.0.as_str());
        order_chars(&av, &bv) == KeyOrder::Less
    }
}

/// The named counts `items` in ranking order: by count, largest first, and
/// among equal counts by name.
pub fn rank(items: Vec<(String, u64)>) -> (r: Vec<(String, u64)>)
    requires
        distinct(tallied_view(items@)),
    ensures
        is_ranking(tallied_view(r@), tallied_view(items@)),
        r@.len() == items@.len(),
{
    let ghost s = tallied_view(items@);
    let mut r: Vec<(String, u64)> = Vec::new();
    let mut items = items;
    let ghost all = items@;
    // Take the items from the back, one at a time.
    let mut n = items.len();
    while n > 0
        invariant
            n == items.len(),
            n <= all.len(),
            items@ == all.take(n as int),
            s == tallied_view(all),
            distinct(s),
            r@.len() + n == all.len(),
            ranked_strictly(tallied_view(r@)),
            forall|x: Tallied| tallied_view(r@).contains(x) <==> s.skip(n as int).contains(x),
        decreases n,
    {
        let x = items.pop().unwrap();
        n -= 1;
        let ghost xv = (x.0@, x.1);
        let ghost rv = tallied_view(r@);
        assert(xv == s[n as int]);
        // x is not yet ranked: the ranked ones come later in `s`.
        assert(!rv.contains(xv)) by {
            if rv.contains(xv) {
                assert(s.skip(n + 1).contains(xv));
                let k = choose|k: int| 0 <= k < s.skip(n + 1).len() && #[trigger] s.skip(n + 1)[k] == xv;
                assert(s[n + 1 + k] == xv);
            }
        }
        let mut p: usize = 0;
        while p < r.len()
            invariant_except_break
                p <= r@.len(),
                xv == (x.0@, x.1),
                rv == tallied_view(r@),
                forall|j: int| 0 <= j < p ==> ranks_before(#[trigger] rv[j], xv),
            ensures
                p <= r@.len(),
                xv == (x.0@, x.1),
                rv == tallied_view(r@),
                forall|j: int| 0 <= j < p ==> ranks_before(#[trigger] rv[j], xv),
                p < r@.len() ==> !ranks_before(rv[p as int], xv),
            decreases r@.len() - p,
        {
            assert(rv[p as int] == (r@[p as int].0@, r@[p as int].1));
            if !ranks_before_exec(&r[p], &x) {
                break;
            }
            p += 1;
        }
        proof {
            if p < r@.len() {
                assert(rv.contains(rv[p as int]));
                lemma_ranks_total(rv[p as int], xv);
            }
            assert forall|j: int| p <= j < rv.len() implies ranks_before(xv, #[trigger] rv[j]) by {
                if j > p {
                    lemma_ranks_transitive(xv, rv[p as int], rv[j]);
                }
            }
        }
        r.insert(p, x);
        proof {
            let nv = tallied_view(r@);
            assert(nv == rv.insert(p as int, xv));
            assert forall|i: int, j: int| 0 <= i < j < nv.len() implies ranks_before(#[trigger] nv[i], #[trigger] nv[j]) by {
                if j < p {
                    assert(nv[i] == rv[i] && nv[j] == rv[j]);
                } else if j == p {
                    assert(nv[i] == rv[i]);
                } else if i < p {
                    assert(nv[i] == rv[i] && nv[j] == rv[j - 1]);
                    lemma_ranks_transitive(rv[i], xv, rv[j - 1]);
                } else if i == p {
                    assert(nv[j] == rv[j - 1]);
                } else {
                    assert(nv[i] == rv[i - 1] && nv[j] == rv[j - 1]);
                }
            }
            assert(s.skip(n as int) == seq![xv] + s.skip(n + 1));
            assert forall|y: Tallied| nv.contains(y) <==> s.skip(n as int).contains(y) by {
                if nv.contains(y) {
                    let k = choose|k: int| 0 <= k < nv.len() && #[trigger] nv[k] == y;
                    if k < p {
                        assert(rv[k] == y);
                    } else if k > p {
                        assert(rv[k - 1] == y);
                    }
                    assert(y == xv || rv.contains(y));
                    assert((seq![xv] + s.skip(n + 1))[0] == xv);
                    if y != xv {
                        let l = choose|l: int| 0 <= l < s.skip(n + 1).len() && #[trigger] s.skip(n + 1)[l] == y;
                        assert((seq![xv] + s.skip(n + 1))[l + 1] == y);
                    }
                }
                if s.skip(n as int).contains(y) {
                    let k = choose|k: int| 0 <= k < s.skip(n as int).len() && #[trigger] s.skip(n as int)[k] == y;
                    if k == 0 {
                        assert(nv[p as int] == y);
                    } else {
                        assert(s.skip(n + 1)[k - 1] == y);
                        assert(rv.contains(y));
                        let l = choose|l: int| 0 <= l < rv.len() && #[trigger] rv[l] == y;
                        if l < p {
                            assert(nv[l] == y);
                        } else {
                            assert(nv[l + 1] == y);
                        }
                    }
                }
            }
            assert(items@ == all.take(n as int));
        }
    }
    assert(s.skip(0) == s);
    r
}

} // verus!
