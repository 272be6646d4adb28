//! Sibling scopes: the records that share a parent, their listing by rank,
//! the highest rank among them, and what it means for their ranks to be dense.

use vstd::prelude::*;
use crate::classification::ClassificationView;

verus! {

/// The test that selects the records of one sibling scope: those whose parent
/// is `scope`, where no parent means the root scope.
pub open spec fn in_scope(scope: Option<int>) -> spec_fn(ClassificationView) -> bool {
    |r: ClassificationView| r.parent_id == scope
}

/// The records of one sibling scope, in the order of the table.
pub open spec fn children(rows: Seq<ClassificationView>, scope: Option<int>) -> Seq<
    ClassificationView,
> {
    rows.filter(in_scope(scope))
}

/// `sorted` with `r` put behind the last record whose rank is not above its own.
pub open spec fn insert_by_order(sorted: Seq<ClassificationView>, r: ClassificationView) -> Seq<
    ClassificationView,
>
    decreases sorted.len(),
{
    if sorted.len() == 0 {
        seq![r]
    } else if sorted.last().order <= r.order {
        sorted.push(r)
    } else {
        insert_by_order(sorted.drop_last(), r).push(sorted.last())
    }
}

/// The records of `s` by ascending rank; records of equal rank keep the
/// order that they have in `s`.
pub open spec fn by_order(s: Seq<ClassificationView>) -> Seq<ClassificationView>
    decreases s.len(),
{
    if s.len() == 0 {
        Seq::empty()
    } else {
        insert_by_order(by_order(s.drop_last()), s.last())
    }
}

/// The listing of one sibling scope: its records by ascending rank.
pub open spec fn listing(rows: Seq<ClassificationView>, scope: Option<int>) -> Seq<
    ClassificationView,
> {
    by_order(children(rows, scope))
}

/// The ranks do not descend along `s`.
pub open spec fn ascending(s: Seq<ClassificationView>) -> bool {
    forall|i: int, j: int| 0 <= i < j < s.len() ==> s[i].order <= s[j].order
}

/// The ranks ascend along `s`, and no two are equal.
pub open spec fn strictly_ascending(s: Seq<ClassificationView>) -> bool {
    forall|i: int, j: int| 0 <= i < j < s.len() ==> s[i].order < s[j].order
}

/// The identifiers ascend along `s`, and no two are equal.
pub open spec fn ascending_ids(s: Seq<ClassificationView>) -> bool {
    forall|i: int, j: int| 0 <= i < j < s.len() ==> s[i].id < s[j].id
}

/// The records of `s` come by ascending rank, and those of equal rank by
/// ascending identifier.
pub open spec fn by_rank_then_id(s: Seq<ClassificationView>) -> bool {
    forall|i: int, j: int|
        0 <= i < j < s.len() ==> s[i].order < s[j].order || (s[i].order == s[j].order && s[i].id
            < s[j].id)
}

/// No two records of `s` share an identifier.
pub open spec fn distinct_ids(s: Seq<ClassificationView>) -> bool {
    forall|i: int, j: int| 0 <= i < j < s.len() ==> s[i].id != s[j].id
}

/// Some record of `s` has the identifier `id`.
pub open spec fn has_id(s: Seq<ClassificationView>, id: int) -> bool {
    exists|i: int| 0 <= i < s.len() && s[i].id == id
}

/// The highest rank among the records of `c`, and 0 where there is none.
pub open spec fn highest_order(c: Seq<ClassificationView>) -> int
    decreases c.len(),
{
    if c.len() == 0 {
        0
    } else if c.len() == 1 {
        c[0].order
    } else if highest_order(c.drop_last()) >= c.last().order {
        highest_order(c.drop_last())
    } else {
        c.last().order
    }
}

/// The highest rank in one sibling scope, and 0 where the scope is empty.
pub open spec fn max_order(rows: Seq<ClassificationView>, scope: Option<int>) -> int {
    highest_order(children(rows, scope))
}

/// Some record of `c` has the rank `k`.
pub open spec fn has_order(c: Seq<ClassificationView>, k: int) -> bool {
    exists|i: int| 0 <= i < c.len() && c[i].order == k
}

/// The ranks of the records of `c` are exactly 1, 2, .., `c.len()`: each lies
/// in that range, no two are equal, and each number of the range is taken.
pub open spec fn dense_orders(c: Seq<ClassificationView>) -> bool {
    &&& forall|i: int| 0 <= i < c.len() ==> 1 <= #[trigger] c[i].order <= c.len()
    &&& forall|i: int, j: int| 0 <= i < j < c.len() ==> c[i].order != c[j].order
    &&& forall|k: int| 1 <= k <= c.len() ==> #[trigger] has_order(c, k)
}

/// The ranks of one sibling scope are dense.
pub open spec fn dense(rows: Seq<ClassificationView>, scope: Option<int>) -> bool {
    dense_orders(children(rows, scope))
}

/// The record `r` with the rank `order`.
pub open spec fn with_order(r: ClassificationView, order: int) -> ClassificationView {
    ClassificationView {
        id: r.id,
        parent_id: r.parent_id,
        name: r.name,
        type_: r.type_,
        data: r.data,
        shortcut_key: r.shortcut_key,
        global_shortcut_key: r.global_shortcut_key,
        order,
    }
}

/// The records of `l`, each with the rank of its place: 1 for the first, 2
/// for the second, and so on.
pub open spec fn renumbered(l: Seq<ClassificationView>) -> Seq<ClassificationView> {
    Seq::new(l.len(), |k: int| with_order(l[k], k + 1))
}

/// `after` is `before` with the ranks of one sibling scope compacted: the
/// record that stood at place `k` of the scope's listing (counted from 0)
/// has the rank `k + 1`, and nothing else has changed.
pub open spec fn reordered(
    before: Seq<ClassificationView>,
    after: Seq<ClassificationView>,
    scope: Option<int>,
) -> bool {
    let l = listing(before, scope);
    &&& after.len() == before.len()
    &&& forall|i: int|
        0 <= i < before.len() ==> #[trigger] after[i] == with_order(before[i], after[i].order)
    &&& forall|i: int|
        0 <= i < before.len() && before[i].parent_id != scope ==> #[trigger] after[i] == before[i]
    &&& forall|i: int, k: int|
        #![trigger before[i], l[k]]
        0 <= i < before.len() && 0 <= k < l.len() && before[i].id == l[k].id ==> after[i].order
            == k + 1
}

/// The table has the shape of a forest: every parent that a record names is
/// a record of the table with a smaller identifier, so that no record is
/// its own ancestor.
pub open spec fn tree_shaped(rows: Seq<ClassificationView>) -> bool {
    forall|i: int|
        0 <= i < rows.len() ==> match (#[trigger] rows[i]).parent_id {
            Some(p) => p < rows[i].id && has_id(rows, p),
            None => true,
        }
}

} // verus!
