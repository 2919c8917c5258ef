//! Sorted, duplicate-free sequences built by insertion, over any strict order.
use vstd::prelude::*;

verus! {

/// Every earlier element is below every later one.
pub open spec fn sorted_by<T>(s: Seq<T>, lt: spec_fn(T, T) -> bool) -> bool {
    forall|i: int, j: int| 0 <= i < j < s.len() ==> #[trigger] lt(s[i], s[j])
}

/// Irreflexive and transitive.
pub open spec fn strict_order<T>(lt: spec_fn(T, T) -> bool) -> bool {
    &&& forall|a: T| !#[trigger] lt(a, a)
    &&& forall|a: T, b: T, c: T| #[trigger] lt(a, b) && #[trigger] lt(b, c) ==> lt(a, c)
}

/// Any two distinct values are ordered one way or the other.
pub open spec fn total_order<T>(lt: spec_fn(T, T) -> bool) -> bool {
    &&& strict_order(lt)
    &&& forall|a: T, b: T| a != b ==> #[trigger] lt(a, b) || lt(b, a)
}

/// Inserts `x` at its place; a value that neither precedes nor follows `x`
/// is taken to be `x` already, and nothing is inserted.
pub open spec fn insert_sorted<T>(s: Seq<T>, x: T, lt: spec_fn(T, T) -> bool) -> Seq<T>
    decreases s.len(),
{
    if s.len() == 0 {
        seq![x]
    } else if lt(x, s[0]) {
        seq![x] + s
    } else if !lt(s[0], x) {
        s
    } else {
        seq![s[0]] + insert_sorted(s.drop_first(), x, lt)
    }
}

/// The elements of `s` in order, each once (as `sort` then `dedup` give).
pub open spec fn sort_dedup<T>(s: Seq<T>, lt: spec_fn(T, T) -> bool) -> Seq<T>
    decreases s.len(),
{
    if s.len() == 0 {
        Seq::empty()
    } else {
        insert_sorted(sort_dedup(s.drop_last(), lt), s.last(), lt)
    }
}

/// Where insertion puts `x`: after the `j` elements below it.
pub proof fn lemma_insert_at<T>(s: Seq<T>, x: T, lt: spec_fn(T, T) -> bool, j: int)
    requires
        strict_order(lt),
        0 <= j <= s.len(),
        forall|k: int| 0 <= k < j ==> #[trigger] lt(s[k], x),
        j == s.len() || !lt(s[j], x),
    ensures
        insert_sorted(s, x, lt) == if j < s.len() && !lt(x, s[j]) {
            s
        } else {
            s.insert(j, x)
        },
    decreases s.len(),
{
    if s.len() == 0 {
        assert(s.insert(0, x) == seq![x]);
    } else if j == 0 {
        if lt(x, s[0]) {
            assert(s.insert(0, x) == seq![x] + s);
        }
    } else {
        assert(lt(s[0], x));
        if lt(x, s[0]) {
            assert(lt(x, x));
        }
        let t = s.drop_first();
        assert forall|k: int| 0 <= k < j - 1 implies #[trigger] lt(t[k], x) by {
            assert(t[k] == s[k + 1]);
        }
        lemma_insert_at(t, x, lt, j - 1);
        if j < s.len() && !lt(x, s[j]) {
            assert(seq![s[0]] + t == s);
        } else {
            assert(seq![s[0]] + t.insert(j - 1, x) == s.insert(j, x));
        }
    }
}

/// Insertion keeps a sequence sorted, and adds `x` unless an element
/// neither precedes nor follows it.
pub proof fn lemma_insert_sorted<T>(s: Seq<T>, x: T, lt: spec_fn(T, T) -> bool)
    requires
        strict_order(lt),
        sorted_by(s, lt),
    ensures
        sorted_by(insert_sorted(s, x, lt), lt),
        forall|y: T| #[trigger] insert_sorted(s, x, lt).contains(y) ==> s.contains(y) || y == x,
        forall|y: T| s.contains(y) ==> #[trigger] insert_sorted(s, x, lt).contains(y),
        insert_sorted(s, x, lt).contains(x) || exists|i: int|
            0 <= i < s.len() && !lt(x, s[i]) && !lt(s[i], x),
    decreases s.len(),
{
    let r = insert_sorted(s, x, lt);
    if s.len() == 0 {
        assert(r[0] == x);
    } else if lt(x, s[0]) {
        assert forall|i: int, j: int| 0 <= i < j < r.len() implies #[trigger] lt(r[i], r[j]) by {
            if i == 0 && j > 1 {
                assert(lt(s[0], s[j - 1]));
            }
        }
        assert(r[0] == x);
        assert forall|y: T| s.contains(y) implies #[trigger] r.contains(y) by {
            let k = choose|k: int| 0 <= k < s.len() && s[k] == y;
            assert(r[k + 1] == y);
        }
        assert forall|y: T| #[trigger] r.contains(y) implies s.contains(y) || y == x by {
            let k = choose|k: int| 0 <= k < r.len() && r[k] == y;
            if k > 0 {
                assert(s[k - 1] == y);
            }
        }
    } else if !lt(s[0], x) {
    } else {
        let t = s.drop_first();
        assert(sorted_by(t, lt)) by {
            assert forall|i: int, j: int| 0 <= i < j < t.len() implies #[trigger] lt(t[i], t[j]) by {
                assert(lt(s[i + 1], s[j + 1]));
            }
        }
        lemma_insert_sorted(t, x, lt);
        let u = insert_sorted(t, x, lt);
        assert(r == seq![s[0]] + u);
        assert forall|k: int| 0 <= k < u.len() implies lt(s[0], #[trigger] u[k]) by {
            assert(u.contains(u[k]));
            if u[k] != x {
                let m = choose|m: int| 0 <= m < t.len() && t[m] == u[k];
                assert(lt(s[0], s[m + 1]));
            }
        }
        assert forall|i: int, j: int| 0 <= i < j < r.len() implies #[trigger] lt(r[i], r[j]) by {
            if i == 0 {
                assert(r[j] == u[j - 1]);
            } else {
                assert(r[i] == u[i - 1] && r[j] == u[j - 1]);
            }
        }
        assert forall|y: T| s.contains(y) implies #[trigger] r.contains(y) by {
            let k = choose|k: int| 0 <= k < s.len() && s[k] == y;
            if k == 0 {
                assert(r[0] == y);
            } else {
                assert(t[k - 1] == y);
                assert(u.contains(y));
                let m = choose|m: int| 0 <= m < u.len() && u[m] == y;
                assert(r[m + 1] == y);
            }
        }
        assert forall|y: T| #[trigger] r.contains(y) implies s.contains(y) || y == x by {
            let k = choose|k: int| 0 <= k < r.len() && r[k] == y;
            if k == 0 {
                assert(s[0] == y);
            } else {
                assert(u[k - 1] == y);
                assert(u.contains(y));
                if y != x {
                    let m = choose|m: int| 0 <= m < t.len() && t[m] == y;
                    assert(s[m + 1] == y);
                }
            }
        }
        if !u.contains(x) {
            let i = choose|i: int| 0 <= i < t.len() && !lt(x, t[i]) && !lt(t[i], x);
            assert(s[i + 1] == t[i]);
        } else {
            let m = choose|m: int| 0 <= m < u.len() && u[m] == x;
            assert(r[m + 1] == x);
        }
    }
}

/// The result of `sort_dedup` is sorted and holds exactly the elements of `s`.
pub proof fn lemma_sort_dedup<T>(s: Seq<T>, lt: spec_fn(T, T) -> bool)
    requires
        total_order(lt),
    ensures
        sorted_by(sort_dedup(s, lt), lt),
        forall|y: T| #[trigger] sort_dedup(s, lt).contains(y) <==> s.contains(y),
    decreases s.len(),
{
    if s.len() > 0 {
        let p = s.drop_last();
        lemma_sort_dedup(p, lt);
        let q = sort_dedup(p, lt);
        lemma_insert_sorted(q, s.last(), lt);
        let r = sort_dedup(s, lt);
        assert forall|y: T| #[trigger] r.contains(y) <==> s.contains(y) by {
            if r.contains(y) && y != s.last() {
                assert(q.contains(y));
                let k = choose|k: int| 0 <= k < p.len() && p[k] == y;
                assert(s[k] == y);
            }
            if s.contains(y) {
                let k = choose|k: int| 0 <= k < s.len() && s[k] == y;
                if k < s.len() - 1 {
                    assert(p[k] == y);
                    assert(p.contains(y));
                    assert(q.contains(y));
                } else if !r.contains(s.last()) {
                    let i = choose|i: int|
                        0 <= i < q.len() && !lt(s.last(), q[i]) && !lt(q[i], s.last());
                    assert(q[i] == s.last());
                    assert(q.contains(q[i]));
                }
            }
        }
    }
}

/// Two sorted sequences with the same elements are the same sequence.
pub proof fn lemma_sorted_unique<T>(a: Seq<T>, b: Seq<T>, lt: spec_fn(T, T) -> bool)
    requires
        strict_order(lt),
        sorted_by(a, lt),
        sorted_by(b, lt),
        forall|y: T| a.contains(y) <==> b.contains(y),
    ensures
        a == b,
    decreases a.len(),
{
    if a.len() == 0 {
        if b.len() > 0 {
            assert(b.contains(b[0]));
        }
    } else if b.len() == 0 {
        assert(a.contains(a[0]));
    } else {
        assert(a.contains(a[0]) && b.contains(b[0]));
        let i = choose|i: int| 0 <= i < b.len() && b[i] == a[0];
        let j = choose|j: int| 0 <= j < a.len() && a[j] == b[0];
        if i > 0 && j > 0 {
            assert(lt(b[0], b[i]));
            assert(lt(a[0], a[j]));
            assert(lt(a[0], a[0]));
        } else if i > 0 {
            assert(lt(b[0], b[i]));
            assert(b[0] == a[0]);
            assert(lt(a[0], a[0]));
        } else if j > 0 {
            assert(lt(a[0], a[j]));
            assert(lt(a[0], a[0]));
        }
        assert(a[0] == b[0]);
        let ta = a.drop_first();
        let tb = b.drop_first();
        assert(sorted_by(ta, lt)) by {
            assert forall|x: int, y: int| 0 <= x < y < ta.len() implies #[trigger] lt(ta[x], ta[y]) by {
                assert(lt(a[x + 1], a[y + 1]));
            }
        }
        assert(sorted_by(tb, lt)) by {
            assert forall|x: int, y: int| 0 <= x < y < tb.len() implies #[trigger] lt(tb[x], tb[y]) by {
                assert(lt(b[x + 1], b[y + 1]));
            }
        }
        assert forall|y: T| ta.contains(y) <==> tb.contains(y) by {
            if ta.contains(y) {
                let k = choose|k: int| 0 <= k < ta.len() && ta[k] == y;
                assert(lt(a[0], a[k + 1]));
                assert(a.contains(a[k + 1]));
                assert(b.contains(y));
                let m = choose|m: int| 0 <= m < b.len() && b[m] == y;
                if m == 0 {
                    assert(lt(y, y));
                }
                assert(tb[m - 1] == y);
            }
            if tb.contains(y) {
                let k = choose|k: int| 0 <= k < tb.len() && tb[k] == y;
                assert(lt(b[0], b[k + 1]));
                assert(b.contains(b[k + 1]));
                assert(a.contains(y));
                let m = choose|m: int| 0 <= m < a.len() && a[m] == y;
                if m == 0 {
                    assert(lt(y, y));
                }
                assert(ta[m - 1] == y);
            }
        }
        lemma_sorted_unique(ta, tb, lt);
        assert(a == seq![a[0]] + ta);
        assert(b == seq![b[0]] + tb);
    }
}


/// A sorted sequence is its own `sort_dedup`.
pub proof fn lemma_sort_dedup_of_sorted<T>(s: Seq<T>, lt: spec_fn(T, T) -> bool)
    requires
        total_order(lt),
        sorted_by(s, lt),
    ensures
        sort_dedup(s, lt) == s,
{
    lemma_sort_dedup(s, lt);
    lemma_sorted_unique(sort_dedup(s, lt), s, lt);
}

} // verus!
