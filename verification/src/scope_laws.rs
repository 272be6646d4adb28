//! What holds of sibling scopes: of their records, of their listing by
//! rank, of dense ranks, and of the shape of the table.

use vstd::prelude::*;
use crate::classification::ClassificationView;
use crate::scope::{
    ascending, ascending_ids, by_order, by_rank_then_id, children, dense, dense_orders,
    distinct_ids, has_id, has_order, highest_order, in_scope, insert_by_order, listing,
    renumbered, reordered, strictly_ascending, tree_shaped, with_order,
};

verus! {

/// What a new record does to the sibling scopes of a table: it joins its
/// own at the end and leaves every other as it was.
pub proof fn lemma_children_push(
    rows: Seq<ClassificationView>,
    r: ClassificationView,
    scope: Option<int>,
)
    ensures
        children(rows.push(r), scope) == if r.parent_id == scope {
            children(rows, scope).push(r)
        } else {
            children(rows, scope)
        },
{
    rows.lemma_filter_push(r, in_scope(scope));
}

/// A sibling scope holds exactly the records of the table whose parent it is.
pub proof fn lemma_children_contains(rows: Seq<ClassificationView>, scope: Option<int>)
    ensures
        forall|r: ClassificationView|
            children(rows, scope).contains(r) <==> rows.contains(r) && r.parent_id == scope,
{
    let c = children(rows, scope);
    assert forall|r: ClassificationView| c.contains(r) <==> rows.contains(r) && r.parent_id
        == scope by {
        if c.contains(r) {
            let i = choose|i: int| 0 <= i < c.len() && c[i] == r;
            rows.lemma_filter_pred(in_scope(scope), i);
            rows.lemma_filter_contains_rev(in_scope(scope), r);
        }
        if rows.contains(r) && r.parent_id == scope {
            let i = choose|i: int| 0 <= i < rows.len() && rows[i] == r;
            rows.lemma_filter_contains(in_scope(scope), i);
        }
    }
}

/// The records of a sibling scope have distinct identifiers where those of
/// the table have.
pub proof fn lemma_children_distinct(rows: Seq<ClassificationView>, scope: Option<int>)
    requires
        distinct_ids(rows),
    ensures
        distinct_ids(children(rows, scope)),
    decreases rows.len(),
{
    let c = children(rows, scope);
    if rows.len() == 0 {
        rows.lemma_filter_len(in_scope(scope));
    } else {
        let front = rows.drop_last();
        assert(rows =~= front.push(rows.last()));
        lemma_children_push(front, rows.last(), scope);
        assert(distinct_ids(front)) by {
            assert forall|i: int, j: int| 0 <= i < j < front.len() implies front[i].id
                != front[j].id by {
                assert(front[i] == rows[i] && front[j] == rows[j]);
            }
        }
        lemma_children_distinct(front, scope);
        let cf = children(front, scope);
        if rows.last().parent_id == scope {
            assert forall|i: int, j: int| 0 <= i < j < c.len() implies c[i].id != c[j].id by {
                assert(c[i] == cf[i]);
                if j < cf.len() {
                    assert(c[j] == cf[j]);
                } else {
                    assert(cf.contains(cf[i]));
                    front.lemma_filter_contains_rev(in_scope(scope), cf[i]);
                    let k = choose|k: int| 0 <= k < front.len() && front[k] == cf[i];
                    assert(rows[k] == cf[i]);
                    assert(rows[rows.len() - 1] == c[j]);
                }
            }
        }
    }
}

/// The records of a sibling scope come by ascending identifier where those
/// of the table do.
pub proof fn lemma_children_ascending_ids(rows: Seq<ClassificationView>, scope: Option<int>)
    requires
        ascending_ids(rows),
    ensures
        ascending_ids(children(rows, scope)),
    decreases rows.len(),
{
    let c = children(rows, scope);
    if rows.len() == 0 {
        rows.lemma_filter_len(in_scope(scope));
    } else {
        let front = rows.drop_last();
        assert(rows =~= front.push(rows.last()));
        lemma_children_push(front, rows.last(), scope);
        assert(ascending_ids(front)) by {
            assert forall|i: int, j: int| 0 <= i < j < front.len() implies front[i].id
                < front[j].id by {
                assert(front[i] == rows[i] && front[j] == rows[j]);
            }
        }
        lemma_children_ascending_ids(front, scope);
        let cf = children(front, scope);
        if rows.last().parent_id == scope {
            assert forall|i: int, j: int| 0 <= i < j < c.len() implies c[i].id < c[j].id by {
                assert(c[i] == cf[i]);
                if j < cf.len() {
                    assert(c[j] == cf[j]);
                } else {
                    assert(cf.contains(cf[i]));
                    front.lemma_filter_contains_rev(in_scope(scope), cf[i]);
                    let k = choose|k: int| 0 <= k < front.len() && front[k] == cf[i];
                    assert(rows[k] == cf[i]);
                    assert(rows[rows.len() - 1] == c[j]);
                }
            }
        }
    }
}

/// Two tables that agree on the parent of every record have sibling scopes
/// of the same size.
pub proof fn lemma_children_len(
    a: Seq<ClassificationView>,
    b: Seq<ClassificationView>,
    scope: Option<int>,
)
    requires
        a.len() == b.len(),
        forall|i: int| 0 <= i < a.len() ==> a[i].parent_id == b[i].parent_id,
    ensures
        children(a, scope).len() == children(b, scope).len(),
    decreases a.len(),
{
    if a.len() == 0 {
        a.lemma_filter_len(in_scope(scope));
        b.lemma_filter_len(in_scope(scope));
    } else {
        assert(a =~= a.drop_last().push(a.last()));
        assert(b =~= b.drop_last().push(b.last()));
        lemma_children_push(a.drop_last(), a.last(), scope);
        lemma_children_push(b.drop_last(), b.last(), scope);
        assert forall|i: int| 0 <= i < a.drop_last().len() implies a.drop_last()[i].parent_id
            == b.drop_last()[i].parent_id by {
            assert(a.drop_last()[i] == a[i] && b.drop_last()[i] == b[i]);
        }
        lemma_children_len(a.drop_last(), b.drop_last(), scope);
    }
}

/// Two tables that agree on every record that either has in a sibling scope
/// have the same records in that scope.
pub proof fn lemma_children_same(
    a: Seq<ClassificationView>,
    b: Seq<ClassificationView>,
    scope: Option<int>,
)
    requires
        a.len() == b.len(),
        forall|i: int|
            0 <= i < a.len() && (a[i].parent_id == scope || b[i].parent_id == scope) ==> a[i]
                == b[i],
    ensures
        children(a, scope) == children(b, scope),
    decreases a.len(),
{
    if a.len() == 0 {
        assert(a =~= b);
    } else {
        assert(a =~= a.drop_last().push(a.last()));
        assert(b =~= b.drop_last().push(b.last()));
        lemma_children_push(a.drop_last(), a.last(), scope);
        lemma_children_push(b.drop_last(), b.last(), scope);
        assert forall|i: int|
            0 <= i < a.drop_last().len() && (a.drop_last()[i].parent_id == scope
                || b.drop_last()[i].parent_id == scope) implies a.drop_last()[i]
            == b.drop_last()[i] by {
            assert(a.drop_last()[i] == a[i] && b.drop_last()[i] == b[i]);
        }
        lemma_children_same(a.drop_last(), b.drop_last(), scope);
        assert(a[a.len() - 1] == a.last() && b[b.len() - 1] == b.last());
    }
}

/// Two tables that agree on parent and rank of every record have sibling
/// scopes that agree on the rank of every record.
pub proof fn lemma_children_aligned(
    a: Seq<ClassificationView>,
    b: Seq<ClassificationView>,
    scope: Option<int>,
)
    requires
        a.len() == b.len(),
        forall|i: int|
            0 <= i < a.len() ==> (#[trigger] a[i]).parent_id == b[i].parent_id && a[i].order
                == b[i].order,
    ensures
        children(a, scope).len() == children(b, scope).len(),
        forall|m: int|
            0 <= m < children(a, scope).len() ==> (#[trigger] children(a, scope)[m]).order
                == children(b, scope)[m].order,
    decreases a.len(),
{
    if a.len() == 0 {
        a.lemma_filter_len(in_scope(scope));
        b.lemma_filter_len(in_scope(scope));
    } else {
        let fa = a.drop_last();
        let fb = b.drop_last();
        assert(a =~= fa.push(a.last()));
        assert(b =~= fb.push(b.last()));
        lemma_children_push(fa, a.last(), scope);
        lemma_children_push(fb, b.last(), scope);
        assert forall|i: int| 0 <= i < fa.len() implies (#[trigger] fa[i]).parent_id
            == fb[i].parent_id && fa[i].order == fb[i].order by {
            assert(fa[i] == a[i] && fb[i] == b[i]);
        }
        lemma_children_aligned(fa, fb, scope);
        assert(a[a.len() - 1] == a.last() && b[b.len() - 1] == b.last());
        let ca = children(a, scope);
        let cb = children(b, scope);
        assert forall|m: int| 0 <= m < ca.len() implies (#[trigger] ca[m]).order
            == cb[m].order by {
            if m < children(fa, scope).len() {
                assert(ca[m] == children(fa, scope)[m]);
                assert(cb[m] == children(fb, scope)[m]);
            }
        }
    }
}

/// Putting a record into a sequence adds it and keeps every other record.
pub proof fn lemma_insert_by_order_contains(
    sorted: Seq<ClassificationView>,
    r: ClassificationView,
    x: ClassificationView,
)
    ensures
        insert_by_order(sorted, r).len() == sorted.len() + 1,
        insert_by_order(sorted, r).contains(x) <==> (sorted.contains(x) || x == r),
    decreases sorted.len(),
{
    let out = insert_by_order(sorted, r);
    if sorted.len() == 0 {
        assert(out[0] == r);
        if out.contains(x) {
            let i = choose|i: int| 0 <= i < out.len() && out[i] == x;
            assert(x == r);
        }
    } else if sorted.last().order <= r.order {
        assert(out[sorted.len() as int] == r);
        if sorted.contains(x) {
            let i = choose|i: int| 0 <= i < sorted.len() && sorted[i] == x;
            assert(out[i] == x);
        }
        if out.contains(x) {
            let i = choose|i: int| 0 <= i < out.len() && out[i] == x;
            if i < sorted.len() {
                assert(sorted[i] == x);
            }
        }
    } else {
        let front = sorted.drop_last();
        let inner = insert_by_order(front, r);
        lemma_insert_by_order_contains(front, r, x);
        assert(out[inner.len() as int] == sorted.last());
        if sorted.contains(x) {
            let i = choose|i: int| 0 <= i < sorted.len() && sorted[i] == x;
            if i < front.len() {
                assert(front[i] == x);
                assert(inner.contains(x));
                let j = choose|j: int| 0 <= j < inner.len() && inner[j] == x;
                assert(out[j] == x);
            }
        }
        if x == r {
            assert(inner.contains(x));
            let j = choose|j: int| 0 <= j < inner.len() && inner[j] == x;
            assert(out[j] == x);
        }
        if out.contains(x) {
            let i = choose|i: int| 0 <= i < out.len() && out[i] == x;
            if i < inner.len() {
                assert(inner[i] == x);
                assert(inner.contains(x));
                if front.contains(x) {
                    let j = choose|j: int| 0 <= j < front.len() && front[j] == x;
                    assert(sorted[j] == x);
                }
            } else {
                assert(sorted[sorted.len() - 1] == x);
            }
        }
    }
}

/// Putting a record into an ascending sequence leaves it ascending.
pub proof fn lemma_insert_by_order_ascending(sorted: Seq<ClassificationView>, r: ClassificationView)
    requires
        ascending(sorted),
    ensures
        ascending(insert_by_order(sorted, r)),
    decreases sorted.len(),
{
    let out = insert_by_order(sorted, r);
    if sorted.len() == 0 {
    } else if sorted.last().order <= r.order {
        assert forall|i: int, j: int| 0 <= i < j < out.len() implies out[i].order
            <= out[j].order by {
            if j < sorted.len() {
                assert(out[i] == sorted[i] && out[j] == sorted[j]);
            } else {
                assert(out[j] == r);
                assert(out[i] == sorted[i]);
                assert(sorted[i].order <= sorted.last().order || i == sorted.len() - 1);
            }
        }
    } else {
        let front = sorted.drop_last();
        let inner = insert_by_order(front, r);
        assert(ascending(front)) by {
            assert forall|i: int, j: int| 0 <= i < j < front.len() implies front[i].order
                <= front[j].order by {
                assert(front[i] == sorted[i] && front[j] == sorted[j]);
            }
        }
        lemma_insert_by_order_ascending(front, r);
        assert forall|i: int, j: int| 0 <= i < j < out.len() implies out[i].order
            <= out[j].order by {
            if j < inner.len() {
                assert(out[i] == inner[i] && out[j] == inner[j]);
            } else {
                assert(out[j] == sorted.last());
                assert(out[i] == inner[i]);
                lemma_insert_by_order_contains(front, r, inner[i]);
                assert(inner.contains(inner[i]));
                if inner[i] == r {
                } else {
                    let k = choose|k: int| 0 <= k < front.len() && front[k] == inner[i];
                    assert(sorted[k] == inner[i]);
                }
            }
        }
    }
}

/// Putting a record with a fresh identifier into a sequence of distinct
/// identifiers leaves them distinct.
pub proof fn lemma_insert_by_order_distinct(sorted: Seq<ClassificationView>, r: ClassificationView)
    requires
        distinct_ids(sorted),
        !has_id(sorted, r.id),
    ensures
        distinct_ids(insert_by_order(sorted, r)),
    decreases sorted.len(),
{
    let out = insert_by_order(sorted, r);
    if sorted.len() == 0 {
    } else if sorted.last().order <= r.order {
        assert forall|i: int, j: int| 0 <= i < j < out.len() implies out[i].id != out[j].id by {
            assert(out[i] == sorted[i]);
            if j < sorted.len() {
                assert(out[j] == sorted[j]);
            }
        }
    } else {
        let front = sorted.drop_last();
        let inner = insert_by_order(front, r);
        assert(distinct_ids(front) && !has_id(front, r.id)) by {
            assert forall|i: int| 0 <= i < front.len() implies front[i] == sorted[i] by {}
        }
        lemma_insert_by_order_distinct(front, r);
        lemma_insert_by_order_contains(front, r, r);
        assert forall|i: int, j: int| 0 <= i < j < out.len() implies out[i].id != out[j].id by {
            assert(out[i] == inner[i]);
            if j < inner.len() {
                assert(out[j] == inner[j]);
            } else {
                assert(out[j] == sorted.last());
                lemma_insert_by_order_contains(front, r, inner[i]);
                assert(inner.contains(inner[i]));
                if inner[i] == r {
                    assert(sorted[sorted.len() - 1].id != r.id);
                } else {
                    let k = choose|k: int| 0 <= k < front.len() && front[k] == inner[i];
                    assert(sorted[k] == inner[i]);
                }
            }
        }
    }
}

/// Putting a record with an identifier above every other into a sequence
/// that comes by rank and then by identifier leaves it so.
pub proof fn lemma_insert_by_order_ranked(sorted: Seq<ClassificationView>, r: ClassificationView)
    requires
        by_rank_then_id(sorted),
        forall|i: int| 0 <= i < sorted.len() ==> (#[trigger] sorted[i]).id < r.id,
    ensures
        by_rank_then_id(insert_by_order(sorted, r)),
    decreases sorted.len(),
{
    let out = insert_by_order(sorted, r);
    if sorted.len() == 0 {
    } else if sorted.last().order <= r.order {
        assert forall|i: int, j: int| 0 <= i < j < out.len() implies out[i].order < out[j].order
            || (out[i].order == out[j].order && out[i].id < out[j].id) by {
            assert(out[i] == sorted[i]);
            if j < sorted.len() {
                assert(out[j] == sorted[j]);
            } else {
                assert(out[j] == r);
                assert(sorted[i].order <= sorted.last().order);
            }
        }
    } else {
        let front = sorted.drop_last();
        let inner = insert_by_order(front, r);
        assert(by_rank_then_id(front)) by {
            assert forall|i: int, j: int| 0 <= i < j < front.len() implies front[i].order
                < front[j].order || (front[i].order == front[j].order && front[i].id
                < front[j].id) by {
                assert(front[i] == sorted[i] && front[j] == sorted[j]);
            }
        }
        assert forall|i: int| 0 <= i < front.len() implies (#[trigger] front[i]).id < r.id by {
            assert(front[i] == sorted[i]);
        }
        lemma_insert_by_order_ranked(front, r);
        assert forall|i: int, j: int| 0 <= i < j < out.len() implies out[i].order < out[j].order
            || (out[i].order == out[j].order && out[i].id < out[j].id) by {
            assert(out[i] == inner[i]);
            if j < inner.len() {
                assert(out[j] == inner[j]);
            } else {
                assert(out[j] == sorted.last());
                lemma_insert_by_order_contains(front, r, inner[i]);
                assert(inner.contains(inner[i]));
                if inner[i] != r {
                    let k = choose|k: int| 0 <= k < front.len() && front[k] == inner[i];
                    assert(sorted[k] == inner[i]);
                    assert(sorted[sorted.len() - 1] == sorted.last());
                }
            }
        }
    }
}

/// The listing by rank holds the records of its argument, no more and no
/// fewer, and is ascending.
pub proof fn lemma_by_order(s: Seq<ClassificationView>)
    ensures
        by_order(s).len() == s.len(),
        ascending(by_order(s)),
        forall|x: ClassificationView| by_order(s).contains(x) <==> s.contains(x),
    decreases s.len(),
{
    if s.len() == 0 {
        assert forall|x: ClassificationView| by_order(s).contains(x) <==> s.contains(x) by {
            if by_order(s).contains(x) {
                let i = choose|i: int| 0 <= i < by_order(s).len() && by_order(s)[i] == x;
            }
            if s.contains(x) {
                let i = choose|i: int| 0 <= i < s.len() && s[i] == x;
            }
        }
    } else {
        let front = s.drop_last();
        lemma_by_order(front);
        lemma_insert_by_order_ascending(by_order(front), s.last());
        lemma_insert_by_order_contains(by_order(front), s.last(), s.last());
        assert forall|x: ClassificationView| by_order(s).contains(x) <==> s.contains(x) by {
            lemma_insert_by_order_contains(by_order(front), s.last(), x);
            if s.contains(x) {
                let i = choose|i: int| 0 <= i < s.len() && s[i] == x;
                if i < front.len() {
                    assert(front[i] == x);
                }
            }
            if front.contains(x) {
                let i = choose|i: int| 0 <= i < front.len() && front[i] == x;
                assert(s[i] == x);
            }
            if x == s.last() {
                assert(s[s.len() - 1] == x);
            }
        }
    }
}

/// The listing by rank of records with distinct identifiers has distinct
/// identifiers.
pub proof fn lemma_by_order_distinct(s: Seq<ClassificationView>)
    requires
        distinct_ids(s),
    ensures
        distinct_ids(by_order(s)),
    decreases s.len(),
{
    if s.len() > 0 {
        let front = s.drop_last();
        assert(distinct_ids(front)) by {
            assert forall|i: int| 0 <= i < front.len() implies front[i] == s[i] by {}
        }
        lemma_by_order_distinct(front);
        lemma_by_order(front);
        let b = by_order(front);
        if has_id(b, s.last().id) {
            let i = choose|i: int| 0 <= i < b.len() && b[i].id == s.last().id;
            assert(b.contains(b[i]));
            assert(front.contains(b[i]));
            let k = choose|k: int| 0 <= k < front.len() && front[k] == b[i];
            assert(s[k] == b[i]);
            assert(s[s.len() - 1] == s.last());
        }
        lemma_insert_by_order_distinct(b, s.last());
    }
}

/// The listing by rank of records that come by ascending identifier has
/// the records of equal rank by ascending identifier.
pub proof fn lemma_by_order_ranked(s: Seq<ClassificationView>)
    requires
        ascending_ids(s),
    ensures
        by_rank_then_id(by_order(s)),
    decreases s.len(),
{
    if s.len() > 0 {
        let front = s.drop_last();
        assert(ascending_ids(front)) by {
            assert forall|i: int, j: int| 0 <= i < j < front.len() implies front[i].id
                < front[j].id by {
                assert(front[i] == s[i] && front[j] == s[j]);
            }
        }
        lemma_by_order_ranked(front);
        lemma_by_order(front);
        let b = by_order(front);
        assert forall|i: int| 0 <= i < b.len() implies (#[trigger] b[i]).id < s.last().id by {
            assert(b.contains(b[i]));
            assert(front.contains(b[i]));
            let k = choose|k: int| 0 <= k < front.len() && front[k] == b[i];
            assert(s[k] == b[i]);
            assert(s[s.len() - 1] == s.last());
        }
        lemma_insert_by_order_ranked(b, s.last());
    }
}

/// Two sequences of one length that hold the same records, each by rank
/// and then by identifier, are the same sequence: the listing of a scope is
/// the one way to put its records in that order.
pub proof fn lemma_by_rank_then_id_unique(
    x: Seq<ClassificationView>,
    y: Seq<ClassificationView>,
)
    requires
        x.len() == y.len(),
        by_rank_then_id(x),
        by_rank_then_id(y),
        forall|r: ClassificationView| x.contains(r) <==> y.contains(r),
    ensures
        x == y,
    decreases x.len(),
{
    if x.len() == 0 {
        assert(x =~= y);
    } else {
        let n = x.len() as int;
        assert(x.contains(x[n - 1]) && y.contains(y[n - 1]));
        assert(y.contains(x[n - 1]) && x.contains(y[n - 1]));
        let j = choose|j: int| 0 <= j < n && y[j] == x[n - 1];
        let i = choose|i: int| 0 <= i < n && x[i] == y[n - 1];
        assert(i == n - 1 && j == n - 1);
        let xf = x.drop_last();
        let yf = y.drop_last();
        assert forall|r: ClassificationView| xf.contains(r) <==> yf.contains(r) by {
            if xf.contains(r) {
                let p = choose|p: int| 0 <= p < xf.len() && xf[p] == r;
                assert(x[p] == r);
                assert(x.contains(r));
                let m = choose|m: int| 0 <= m < n && y[m] == r;
                assert(m < n - 1);
                assert(yf[m] == r);
            }
            if yf.contains(r) {
                let p = choose|p: int| 0 <= p < yf.len() && yf[p] == r;
                assert(y[p] == r);
                assert(y.contains(r));
                let m = choose|m: int| 0 <= m < n && x[m] == r;
                assert(m < n - 1);
                assert(xf[m] == r);
            }
        }
        assert(by_rank_then_id(xf)) by {
            assert forall|a: int, b: int| 0 <= a < b < xf.len() implies xf[a].order < xf[b].order
                || (xf[a].order == xf[b].order && xf[a].id < xf[b].id) by {
                assert(xf[a] == x[a] && xf[b] == x[b]);
            }
        }
        assert(by_rank_then_id(yf)) by {
            assert forall|a: int, b: int| 0 <= a < b < yf.len() implies yf[a].order < yf[b].order
                || (yf[a].order == yf[b].order && yf[a].id < yf[b].id) by {
                assert(yf[a] == y[a] && yf[b] == y[b]);
            }
        }
        lemma_by_rank_then_id_unique(xf, yf);
        assert(x =~= xf.push(x[n - 1]));
        assert(y =~= yf.push(y[n - 1]));
    }
}

/// Two sequences of one length that hold the same records, each by strictly
/// ascending rank, are the same sequence.
pub proof fn lemma_strictly_ascending_unique(
    x: Seq<ClassificationView>,
    y: Seq<ClassificationView>,
)
    requires
        x.len() == y.len(),
        strictly_ascending(x),
        strictly_ascending(y),
        forall|r: ClassificationView| x.contains(r) <==> y.contains(r),
    ensures
        x == y,
{
    lemma_by_rank_then_id_unique(x, y);
}

/// A record that ranks above every record of a scope stands last in the
/// listing of the scope that it joins.
pub proof fn lemma_push_listing(c: Seq<ClassificationView>, r: ClassificationView)
    requires
        c.len() > 0 ==> r.order > highest_order(c),
    ensures
        by_order(c.push(r)) == by_order(c).push(r),
{
    let b = by_order(c);
    assert(c.push(r).drop_last() =~= c);
    lemma_by_order(c);
    if b.len() > 0 {
        lemma_highest_order(c);
        assert(b.contains(b.last()));
        assert(c.contains(b.last()));
        let i = choose|i: int| 0 <= i < c.len() && c[i] == b.last();
        assert(c[i].order <= highest_order(c));
    } else {
        assert(seq![r] =~= b.push(r));
    }
}

/// The highest rank of a scope with records is the rank of one of them, and
/// none of them ranks above it.
pub proof fn lemma_highest_order(c: Seq<ClassificationView>)
    requires
        c.len() > 0,
    ensures
        has_order(c, highest_order(c)),
        forall|i: int| 0 <= i < c.len() ==> c[i].order <= highest_order(c),
    decreases c.len(),
{
    if c.len() == 1 {
        assert(c[0].order == highest_order(c));
    } else {
        let front = c.drop_last();
        lemma_highest_order(front);
        let w = choose|i: int| 0 <= i < front.len() && front[i].order == highest_order(front);
        assert(c[w] == front[w]);
        assert(c[c.len() - 1] == c.last());
        assert forall|i: int| 0 <= i < c.len() implies c[i].order <= highest_order(c) by {
            if i < front.len() {
                assert(c[i] == front[i]);
            }
        }
    }
}

/// In a scope with dense ranks the highest rank is the number of records.
pub proof fn lemma_dense_highest(c: Seq<ClassificationView>)
    requires
        dense_orders(c),
    ensures
        highest_order(c) == c.len(),
{
    if c.len() > 0 {
        lemma_highest_order(c);
        assert(has_order(c, c.len() as int));
    }
}

/// A record that joins a dense scope with the rank behind the highest
/// leaves the scope dense.
pub proof fn lemma_push_dense(c: Seq<ClassificationView>, r: ClassificationView)
    requires
        dense_orders(c),
        r.order == highest_order(c) + 1,
    ensures
        dense_orders(c.push(r)),
{
    lemma_dense_highest(c);
    let d = c.push(r);
    assert forall|k: int| 1 <= k <= d.len() implies #[trigger] has_order(d, k) by {
        if k <= c.len() {
            assert(has_order(c, k));
            let i = choose|i: int| 0 <= i < c.len() && c[i].order == k;
            assert(d[i].order == k);
        } else {
            assert(d[c.len() as int].order == k);
        }
    }
    assert forall|i: int| 0 <= i < d.len() implies 1 <= #[trigger] d[i].order <= d.len() by {
        if i < c.len() {
            assert(d[i] == c[i]);
        }
    }
    assert forall|i: int, j: int| 0 <= i < j < d.len() implies d[i].order != d[j].order by {
        assert(d[i] == c[i]);
        if j < c.len() {
            assert(d[j] == c[j]);
        }
    }
}

/// Compacting the ranks of a sibling scope leaves them dense.
pub proof fn lemma_reordered_dense(
    before: Seq<ClassificationView>,
    after: Seq<ClassificationView>,
    scope: Option<int>,
)
    requires
        distinct_ids(before),
        reordered(before, after, scope),
    ensures
        dense(after, scope),
{
    let c = children(before, scope);
    let d = children(after, scope);
    let l = listing(before, scope);
    assert(distinct_ids(after)) by {
        assert forall|i: int, j: int| 0 <= i < j < after.len() implies after[i].id
            != after[j].id by {
            assert(after[i] == with_order(before[i], after[i].order));
            assert(after[j] == with_order(before[j], after[j].order));
        }
    }
    assert forall|i: int| 0 <= i < after.len() implies after[i].parent_id
        == before[i].parent_id by {
        assert(after[i] == with_order(before[i], after[i].order));
    }
    lemma_children_len(after, before, scope);
    lemma_children_distinct(after, scope);
    lemma_children_contains(before, scope);
    lemma_children_contains(after, scope);
    lemma_by_order(c);
    // every record of the scope stands somewhere in the listing, and that
    // place gives its new rank
    assert forall|i: int| 0 <= i < before.len() && before[i].parent_id == scope implies 1
        <= after[i].order <= l.len() && l[after[i].order - 1].id == before[i].id by {
        assert(before.contains(before[i]));
        assert(c.contains(before[i]));
        assert(l.contains(before[i]));
        let k = choose|k: int| 0 <= k < l.len() && l[k] == before[i];
        assert(before[i].id == l[k].id);
    }
    assert forall|m: int| 0 <= m < d.len() implies 1 <= #[trigger] d[m].order <= d.len() by {
        assert(d.contains(d[m]));
        assert(after.contains(d[m]));
        let i = choose|i: int| 0 <= i < after.len() && after[i] == d[m];
        assert(before[i].parent_id == scope);
    }
    assert forall|m: int, n: int| 0 <= m < n < d.len() implies d[m].order != d[n].order by {
        assert(d.contains(d[m]) && d.contains(d[n]));
        assert(after.contains(d[m]) && after.contains(d[n]));
        let i = choose|i: int| 0 <= i < after.len() && after[i] == d[m];
        let j = choose|j: int| 0 <= j < after.len() && after[j] == d[n];
        assert(before[i].parent_id == scope && before[j].parent_id == scope);
        assert(after[i] == with_order(before[i], after[i].order));
        assert(after[j] == with_order(before[j], after[j].order));
    }
    assert forall|k: int| 1 <= k <= d.len() implies #[trigger] has_order(d, k) by {
        assert(l.contains(l[k - 1]));
        assert(c.contains(l[k - 1]));
        assert(before.contains(l[k - 1]));
        let i = choose|i: int| 0 <= i < before.len() && before[i] == l[k - 1];
        assert(before[i].id == l[k - 1].id);
        assert(after[i].order == k);
        assert(after[i] == with_order(before[i], after[i].order));
        assert(after.contains(after[i]));
        assert(d.contains(after[i]));
        let m = choose|m: int| 0 <= m < d.len() && d[m] == after[i];
        assert(d[m].order == k);
    }
}

/// Compacting the ranks of a sibling scope keeps its listing but for the
/// ranks: the records come in the sequence in which they came before, now
/// with the ranks 1, 2, and so on.
pub proof fn lemma_reordered_listing(
    before: Seq<ClassificationView>,
    after: Seq<ClassificationView>,
    scope: Option<int>,
)
    requires
        distinct_ids(before),
        reordered(before, after, scope),
    ensures
        listing(after, scope) == renumbered(listing(before, scope)),
{
    let c = children(before, scope);
    let d = children(after, scope);
    let l = listing(before, scope);
    let x = listing(after, scope);
    let y = renumbered(l);
    lemma_reordered_dense(before, after, scope);
    assert(distinct_ids(after)) by {
        assert forall|i: int, j: int| 0 <= i < j < after.len() implies after[i].id
            != after[j].id by {
            assert(after[i] == with_order(before[i], after[i].order));
            assert(after[j] == with_order(before[j], after[j].order));
        }
    }
    assert forall|i: int| 0 <= i < after.len() implies after[i].parent_id
        == before[i].parent_id by {
        assert(after[i] == with_order(before[i], after[i].order));
    }
    lemma_children_len(after, before, scope);
    lemma_children_distinct(after, scope);
    lemma_children_contains(before, scope);
    lemma_children_contains(after, scope);
    lemma_by_order(c);
    lemma_by_order(d);
    lemma_by_order_distinct(d);
    assert(strictly_ascending(x)) by {
        assert forall|i: int, j: int| 0 <= i < j < x.len() implies x[i].order < x[j].order by {
            assert(x.contains(x[i]) && x.contains(x[j]));
            assert(d.contains(x[i]) && d.contains(x[j]));
            let m = choose|m: int| 0 <= m < d.len() && d[m] == x[i];
            let n = choose|n: int| 0 <= n < d.len() && d[n] == x[j];
            assert(x[i].id != x[j].id);
            if m < n {
                assert(d[m].order != d[n].order);
            } else {
                assert(d[n].order != d[m].order);
            }
        }
    }
    assert forall|r: ClassificationView| x.contains(r) <==> y.contains(r) by {
        if x.contains(r) {
            assert(d.contains(r));
            assert(after.contains(r));
            let i = choose|i: int| 0 <= i < after.len() && after[i] == r;
            assert(before.contains(before[i]));
            assert(c.contains(before[i]));
            assert(l.contains(before[i]));
            let k = choose|k: int| 0 <= k < l.len() && l[k] == before[i];
            assert(before[i].id == l[k].id);
            assert(after[i] == with_order(before[i], after[i].order));
            assert(y[k] == r);
        }
        if y.contains(r) {
            let k = choose|k: int| 0 <= k < y.len() && y[k] == r;
            assert(l.contains(l[k]));
            assert(c.contains(l[k]));
            assert(before.contains(l[k]));
            let i = choose|i: int| 0 <= i < before.len() && before[i] == l[k];
            assert(before[i].id == l[k].id);
            assert(after[i] == with_order(before[i], after[i].order));
            assert(after.contains(after[i]));
            assert(d.contains(after[i]));
        }
    }
    lemma_strictly_ascending_unique(x, y);
}

/// Putting a record into a sequence that comes by strictly ascending rank,
/// none of them its own, leaves the ranks strictly ascending.
pub proof fn lemma_insert_by_order_strict(sorted: Seq<ClassificationView>, r: ClassificationView)
    requires
        strictly_ascending(sorted),
        forall|i: int| 0 <= i < sorted.len() ==> (#[trigger] sorted[i]).order != r.order,
    ensures
        strictly_ascending(insert_by_order(sorted, r)),
    decreases sorted.len(),
{
    let out = insert_by_order(sorted, r);
    if sorted.len() == 0 {
    } else if sorted.last().order <= r.order {
        assert(sorted[sorted.len() - 1].order != r.order);
        assert forall|i: int, j: int| 0 <= i < j < out.len() implies out[i].order
            < out[j].order by {
            assert(out[i] == sorted[i]);
            if j < sorted.len() {
                assert(out[j] == sorted[j]);
            } else {
                assert(sorted[i].order <= sorted.last().order);
            }
        }
    } else {
        let front = sorted.drop_last();
        let inner = insert_by_order(front, r);
        assert(strictly_ascending(front)) by {
            assert forall|i: int, j: int| 0 <= i < j < front.len() implies front[i].order
                < front[j].order by {
                assert(front[i] == sorted[i] && front[j] == sorted[j]);
            }
        }
        assert forall|i: int| 0 <= i < front.len() implies (#[trigger] front[i]).order
            != r.order by {
            assert(front[i] == sorted[i]);
        }
        lemma_insert_by_order_strict(front, r);
        assert forall|i: int, j: int| 0 <= i < j < out.len() implies out[i].order
            < out[j].order by {
            assert(out[i] == inner[i]);
            if j < inner.len() {
                assert(out[j] == inner[j]);
            } else {
                assert(out[j] == sorted.last());
                lemma_insert_by_order_contains(front, r, inner[i]);
                assert(inner.contains(inner[i]));
                if inner[i] != r {
                    let k = choose|k: int| 0 <= k < front.len() && front[k] == inner[i];
                    assert(sorted[k] == inner[i]);
                    assert(sorted[sorted.len() - 1] == sorted.last());
                }
            }
        }
    }
}

/// The listing by rank of records of which no two share a rank comes by
/// strictly ascending rank.
pub proof fn lemma_by_order_strict(s: Seq<ClassificationView>)
    requires
        forall|i: int, j: int| 0 <= i < j < s.len() ==> s[i].order != s[j].order,
    ensures
        strictly_ascending(by_order(s)),
    decreases s.len(),
{
    if s.len() > 0 {
        let front = s.drop_last();
        assert forall|i: int, j: int| 0 <= i < j < front.len() implies front[i].order
            != front[j].order by {
            assert(front[i] == s[i] && front[j] == s[j]);
        }
        lemma_by_order_strict(front);
        lemma_by_order(front);
        let b = by_order(front);
        assert forall|i: int| 0 <= i < b.len() implies (#[trigger] b[i]).order
            != s.last().order by {
            assert(b.contains(b[i]));
            assert(front.contains(b[i]));
            let k = choose|k: int| 0 <= k < front.len() && front[k] == b[i];
            assert(s[k] == b[i]);
            assert(s[s.len() - 1] == s.last());
        }
        lemma_insert_by_order_strict(b, s.last());
    }
}

/// Along strictly ascending ranks that begin at 1 or above, the rank at
/// place `k`, counted from 0, is above `k`.
proof fn lemma_rank_above_place(x: Seq<ClassificationView>, k: int)
    requires
        strictly_ascending(x),
        0 <= k < x.len(),
        x[0].order >= 1,
    ensures
        x[k].order >= k + 1,
    decreases k,
{
    if k > 0 {
        lemma_rank_above_place(x, k - 1);
    }
}

/// Along strictly ascending ranks that end at the number of records or
/// below, the rank at place `k`, counted from 0, is at most `k + 1`.
proof fn lemma_rank_below_place(x: Seq<ClassificationView>, k: int)
    requires
        strictly_ascending(x),
        0 <= k < x.len(),
        x[x.len() - 1].order <= x.len(),
    ensures
        x[k].order <= k + 1,
    decreases x.len() - k,
{
    if k < x.len() - 1 {
        lemma_rank_below_place(x, k + 1);
    }
}

/// In a scope with dense ranks the listing holds, at every place, the
/// record with the rank of that place: the ranks read 1, 2, and so on up
/// to the number of records.
pub proof fn lemma_dense_listing(c: Seq<ClassificationView>)
    requires
        dense_orders(c),
    ensures
        forall|k: int| 0 <= k < c.len() ==> (#[trigger] by_order(c)[k]).order == k + 1,
{
    let x = by_order(c);
    lemma_by_order(c);
    lemma_by_order_strict(c);
    assert forall|k: int| 0 <= k < c.len() implies (#[trigger] x[k]).order == k + 1 by {
        assert(x.contains(x[0]) && x.contains(x[x.len() - 1]));
        assert(c.contains(x[0]) && c.contains(x[x.len() - 1]));
        let a = choose|a: int| 0 <= a < c.len() && c[a] == x[0];
        let b = choose|b: int| 0 <= b < c.len() && c[b] == x[x.len() - 1];
        assert(1 <= c[a].order && c[b].order <= c.len());
        lemma_rank_above_place(x, k);
        lemma_rank_below_place(x, k);
    }
}


/// A record with an identifier above every other, whose parent is absent or
/// a record of the table, keeps the shape of a forest.
pub proof fn lemma_push_tree_shaped(rows: Seq<ClassificationView>, r: ClassificationView)
    requires
        tree_shaped(rows),
        forall|i: int| 0 <= i < rows.len() ==> (#[trigger] rows[i]).id < r.id,
        r.parent_id is Some ==> has_id(rows, r.parent_id->0),
    ensures
        tree_shaped(rows.push(r)),
{
    let after = rows.push(r);
    assert forall|i: int| 0 <= i < after.len() implies match (#[trigger] after[i]).parent_id {
        Some(p) => p < after[i].id && has_id(after, p),
        None => true,
    } by {
        if let Some(p) = after[i].parent_id {
            if i < rows.len() {
                assert(after[i] == rows[i]);
            }
            assert(has_id(rows, p));
            let w = choose|w: int| 0 <= w < rows.len() && rows[w].id == p;
            assert(after[w] == rows[w]);
        }
    }
}

/// Two tables that agree on the identifier and the parent of every record
/// have the shape of a forest together.
pub proof fn lemma_same_tree_shape(a: Seq<ClassificationView>, b: Seq<ClassificationView>)
    requires
        a.len() == b.len(),
        forall|i: int|
            0 <= i < a.len() ==> (#[trigger] a[i]).id == b[i].id && a[i].parent_id
                == b[i].parent_id,
        tree_shaped(a),
    ensures
        tree_shaped(b),
{
    assert forall|i: int| 0 <= i < b.len() implies match (#[trigger] b[i]).parent_id {
        Some(p) => p < b[i].id && has_id(b, p),
        None => true,
    } by {
        assert(a[i].id == b[i].id);
        if let Some(p) = b[i].parent_id {
            assert(has_id(a, p));
            let w = choose|w: int| 0 <= w < a.len() && a[w].id == p;
            assert(a[w].id == b[w].id);
        }
    }
}

} // verus!
