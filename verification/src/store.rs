//! The classification store: the table of records, the links from items to
//! classifications, and the operations on both.

use vstd::prelude::*;
use crate::classification::{copy_text, scope_of, text_of, Classification, ClassificationView};
use crate::error::StoreError;
use crate::scope::{
    ascending, ascending_ids, by_order, by_rank_then_id, children, dense, distinct_ids, has_id,
    has_order, highest_order, in_scope, insert_by_order, listing, max_order, renumbered,
    reordered, tree_shaped, with_order,
};
use crate::scope_laws::{
    lemma_by_order, lemma_by_order_distinct, lemma_by_order_ranked, lemma_children_aligned,
    lemma_children_ascending_ids, lemma_children_contains, lemma_children_distinct,
    lemma_children_push, lemma_children_same, lemma_dense_listing, lemma_highest_order,
    lemma_push_dense,
    lemma_push_listing, lemma_push_tree_shaped, lemma_reordered_dense, lemma_reordered_listing,
    lemma_same_tree_shape,
};

verus! {

/// The link from one item to the classification that holds it.
#[derive(Clone, Copy, Debug, PartialEq, Eq, Structural)]
pub struct ItemLink {
    pub item_id: i64,
    pub classification_id: i64,
}

/// The store: every record of the table by ascending identifier, the links
/// of the items, and the largest identifier that was ever given out.
pub struct DataSource {
    rows: Vec<Classification>,
    items: Vec<ItemLink>,
    last_id: i32,
}

/// The store as a mathematical value.
pub ghost struct StoreView {
    pub rows: Seq<ClassificationView>,
    pub items: Seq<ItemLink>,
    pub last_id: int,
}

/// The records of a vector as mathematical values.
pub open spec fn views(v: Seq<Classification>) -> Seq<ClassificationView> {
    Seq::new(v.len(), |i: int| v[i]@)
}

/// A scope argument as an optional integer: no value stands for the root scope.
pub open spec fn scope_key(parent_id: Option<i64>) -> Option<int> {
    match parent_id {
        Some(p) => Some(p as int),
        None => None,
    }
}

/// What holds of every store: identifiers start at 1, ascend strictly along
/// the table, and none is above the largest that was given out.
pub open spec fn valid(v: StoreView) -> bool {
    &&& 0 <= v.last_id <= i32::MAX
    &&& forall|i: int| 0 <= i < v.rows.len() ==> 1 <= #[trigger] v.rows[i].id <= v.last_id
    &&& forall|i: int, j: int| 0 <= i < j < v.rows.len() ==> v.rows[i].id < v.rows[j].id
}

impl View for DataSource {
    type V = StoreView;

    closed spec fn view(&self) -> StoreView {
        StoreView { rows: views(self.rows@), items: self.items@, last_id: self.last_id as int }
    }
}

/// The records that a listing draws from: the whole table, or one sibling scope.
pub open spec fn selection(rows: Seq<ClassificationView>, parent_id: Option<i64>) -> Seq<
    ClassificationView,
> {
    match parent_id {
        Some(p) => children(rows, Some(p as int)),
        None => rows,
    }
}

/// Whether an integer fits the width in which a record holds its numbers.
pub open spec fn fits(v: i64) -> bool {
    i32::MIN <= v <= i32::MAX
}

/// Whether an insertion into `v` with these arguments succeeds: the kind is
/// given, kind and parent fit a record, and neither the next identifier nor
/// the next rank of the scope leaves the range of a record.
pub open spec fn can_insert(v: StoreView, parent_id: Option<i64>, type_: Option<i64>) -> bool {
    &&& type_ is Some && fits(type_->0)
    &&& parent_id is Some ==> fits(parent_id->0)
    &&& v.last_id < i32::MAX
    &&& max_order(v.rows, scope_key(parent_id)) < i32::MAX
}

/// The record that an insertion into `v` adds: the next identifier, and the
/// rank behind the highest of its sibling scope.
pub open spec fn new_record(
    v: StoreView,
    parent_id: Option<i64>,
    name: Seq<char>,
    shortcut_key: Option<Seq<char>>,
    global_shortcut_key: bool,
    data: Seq<char>,
    type_: int,
) -> ClassificationView {
    ClassificationView {
        id: v.last_id + 1,
        parent_id: scope_key(parent_id),
        name: Some(name),
        type_,
        data,
        shortcut_key,
        global_shortcut_key,
        order: max_order(v.rows, scope_key(parent_id)) + 1,
    }
}

/// The links with every item of the classification `from` moved to `to`.
pub open spec fn relinked(items: Seq<ItemLink>, from: int, to: int) -> Seq<ItemLink> {
    Seq::new(
        items.len(),
        |i: int|
            if items[i].classification_id == from {
                ItemLink { item_id: items[i].item_id, classification_id: to as i64 }
            } else {
                items[i]
            },
    )
}

/// The links after the insertion of the record `id` under `parent_id`: the
/// items of the parent have moved to the new record.
pub open spec fn links_after_insert(items: Seq<ItemLink>, parent_id: Option<i64>, id: int) -> Seq<
    ItemLink,
> {
    match parent_id {
        Some(p) => relinked(items, p as int, id),
        None => items,
    }
}

/// The record `r` with everything overwritten that an update may change.
pub open spec fn overwritten(
    r: ClassificationView,
    name: Seq<char>,
    shortcut_key: Option<Seq<char>>,
    global_shortcut_key: bool,
    data: Seq<char>,
    type_: int,
) -> ClassificationView {
    ClassificationView {
        id: r.id,
        parent_id: r.parent_id,
        name: Some(name),
        type_,
        data,
        shortcut_key,
        global_shortcut_key,
        order: r.order,
    }
}

/// The record `r` with the settings text `data`.
pub open spec fn with_data(r: ClassificationView, data: Seq<char>) -> ClassificationView {
    ClassificationView {
        id: r.id,
        parent_id: r.parent_id,
        name: r.name,
        type_: r.type_,
        data,
        shortcut_key: r.shortcut_key,
        global_shortcut_key: r.global_shortcut_key,
        order: r.order,
    }
}

/// A table whose identifiers start at 1 and ascend strictly has at most as
/// many records as its largest identifier.
pub proof fn lemma_valid_len(v: StoreView)
    requires
        valid(v),
    ensures
        v.rows.len() <= v.last_id,
{
    lemma_id_above_index(v.rows, v.rows.len() - 1);
}

/// In such a table the record at index `i` has an identifier above `i`.
pub proof fn lemma_id_above_index(rows: Seq<ClassificationView>, i: int)
    requires
        forall|k: int| 0 <= k < rows.len() ==> 1 <= #[trigger] rows[k].id,
        forall|k: int, j: int| 0 <= k < j < rows.len() ==> rows[k].id < rows[j].id,
        -1 <= i < rows.len(),
    ensures
        i >= 0 ==> rows[i].id >= i + 1,
    decreases i + 1,
{
    if i > 0 {
        lemma_id_above_index(rows, i - 1);
    }
}

/// Where every record from index `p` on ranks above `r` and the one before
/// does not, `r` goes to index `p`.
proof fn lemma_insert_position(sorted: Seq<ClassificationView>, r: ClassificationView, p: int)
    requires
        0 <= p <= sorted.len(),
        forall|j: int| p <= j < sorted.len() ==> sorted[j].order > r.order,
        p > 0 ==> sorted[p - 1].order <= r.order,
    ensures
        insert_by_order(sorted, r) == sorted.insert(p, r),
    decreases sorted.len() - p,
{
    if sorted.len() == 0 {
        assert(seq![r] =~= sorted.insert(p, r));
    } else if p == sorted.len() {
        assert(sorted.push(r) =~= sorted.insert(p, r));
    } else {
        let front = sorted.drop_last();
        lemma_insert_position(front, r, p);
        assert(front.insert(p, r).push(sorted.last()) =~= sorted.insert(p, r));
    }
}

/// The first `i + 1` records of a table are its first `i` and the one at `i`.
proof fn lemma_take_step(rows: Seq<ClassificationView>, i: int, scope: Option<int>)
    requires
        0 <= i < rows.len(),
    ensures
        rows.take(i + 1) == rows.take(i).push(rows[i]),
        children(rows.take(i + 1), scope) == if rows[i].parent_id == scope {
            children(rows.take(i), scope).push(rows[i])
        } else {
            children(rows.take(i), scope)
        },
        by_order(rows.take(i + 1)) == insert_by_order(by_order(rows.take(i)), rows[i]),
        by_order(children(rows.take(i), scope).push(rows[i])) == insert_by_order(
            by_order(children(rows.take(i), scope)),
            rows[i],
        ),
{
    assert(rows.take(i + 1) =~= rows.take(i).push(rows[i]));
    rows.take(i).lemma_filter_push(rows[i], in_scope(scope));
    assert(rows.take(i).push(rows[i]).drop_last() =~= rows.take(i));
    let c = children(rows.take(i), scope);
    assert(c.push(rows[i]).drop_last() =~= c);
}

/// The views of a vector after one element was replaced.
proof fn lemma_views_update(v: Seq<Classification>, i: int, r: Classification)
    requires
        0 <= i < v.len(),
    ensures
        views(v.update(i, r)) == views(v).update(i, r@),
{
    assert(views(v.update(i, r)) =~= views(v).update(i, r@));
}

/// Two tables that agree on identifier, parent and rank of every record
/// have the same dense scopes and the shape of a forest together.
proof fn lemma_same_ranks(a: Seq<ClassificationView>, b: Seq<ClassificationView>)
    requires
        a.len() == b.len(),
        forall|i: int|
            0 <= i < a.len() ==> (#[trigger] a[i]).id == b[i].id && a[i].parent_id
                == b[i].parent_id && a[i].order == b[i].order,
    ensures
        forall|scope: Option<int>| dense(a, scope) ==> dense(b, scope),
        tree_shaped(a) ==> tree_shaped(b),
{
    if tree_shaped(a) {
        lemma_same_tree_shape(a, b);
    }
    assert forall|scope: Option<int>| dense(a, scope) implies dense(b, scope) by {
        lemma_children_aligned(a, b, scope);
        let c = children(a, scope);
        let d = children(b, scope);
        assert forall|k: int| 1 <= k <= d.len() implies #[trigger] has_order(d, k) by {
            assert(has_order(c, k));
            let i = choose|i: int| 0 <= i < c.len() && c[i].order == k;
            assert(c[i].order == d[i].order);
        }
        assert forall|i: int| 0 <= i < d.len() implies 1 <= #[trigger] d[i].order <= d.len() by {
            assert(c[i].order == d[i].order);
        }
        assert forall|i: int, j: int| 0 <= i < j < d.len() implies d[i].order != d[j].order by {
            assert(c[i].order == d[i].order);
            assert(c[j].order == d[j].order);
        }
    }
}

/// Whether a record's parent is the scope that `scope` names.
fn same_scope(parent: Option<i32>, scope: Option<i64>) -> (same: bool)
    ensures
        same == (scope_of(parent) == scope_key(scope)),
{
    match (parent, scope) {
        (Some(a), Some(b)) => a as i64 == b,
        (None, None) => true,
        _ => false,
    }
}

/// Puts `record` into a vector behind the last record whose rank is not above
/// its own.
fn insert_sorted(out: &mut Vec<Classification>, record: Classification)
    ensures
        views(final(out)@) == insert_by_order(views(old(out)@), record@),
{
    let ghost before = views(out@);
    let mut p: usize = out.len();
    while p > 0 && out[p - 1].order > record.order
        invariant
            p <= out.len(),
            views(out@) == before,
            forall|j: int| p <= j < out.len() ==> out[j].order > record.order,
        decreases p,
    {
        p -= 1;
    }
    proof {
        lemma_insert_position(before, record@, p as int);
    }
    out.insert(p, record);
    assert(views(out@) =~= before.insert(p as int, record@));
}

/// Moves every item of the classification `from` to `to`.
fn relink(items: &mut Vec<ItemLink>, from: i64, to: i32)
    ensures
        final(items)@ == relinked(old(items)@, from as int, to as int),
{
    let ghost before = items@;
    let mut i: usize = 0;
    while i < items.len()
        invariant
            i <= items.len(),
            items.len() == before.len(),
            forall|k: int| 0 <= k < i ==> items[k] == relinked(before, from as int, to as int)[k],
            forall|k: int| i <= k < items.len() ==> items[k] == before[k],
        decreases items.len() - i,
    {
        let link = items[i];
        if link.classification_id == from {
            items.set(i, ItemLink { item_id: link.item_id, classification_id: to as i64 });
        }
        i += 1;
    }
    assert(items@ =~= relinked(before, from as int, to as int));
}

impl DataSource {
    /// Whether the store is in a state that its operations accept and keep.
    pub open spec fn wf(&self) -> bool {
        valid(self@)
    }

    /// An empty store.
    pub fn new() -> (store: Self)
        ensures
            store.wf(),
            store@.rows.len() == 0,
            store@.items.len() == 0,
            store@.last_id == 0,
    {
        DataSource { rows: Vec::new(), items: Vec::new(), last_id: 0 }
    }

    /// A store over the given table, links and largest identifier, where
    /// these can be the state of a store; else nothing.
    pub fn from_rows(rows: Vec<Classification>, items: Vec<ItemLink>, last_id: i32) -> (store:
        Option<Self>)
        ensures
            store is Some <==> valid(
                (StoreView { rows: views(rows@), items: items@, last_id: last_id as int }),
            ),
            store is Some ==> store->0.wf() && store->0@ == (StoreView {
                rows: views(rows@),
                items: items@,
                last_id: last_id as int,
            }),
    {
        let ghost v = StoreView { rows: views(rows@), items: items@, last_id: last_id as int };
        if last_id < 0 {
            return None;
        }
        let mut i: usize = 0;
        while i < rows.len()
            invariant
                i <= rows.len(),
                0 <= last_id,
                v.rows == views(rows@),
                forall|k: int| 0 <= k < i ==> 1 <= #[trigger] v.rows[k].id <= last_id,
                forall|k: int, j: int| 0 <= k < j < i ==> v.rows[k].id < v.rows[j].id,
            decreases rows.len() - i,
        {
            let id = rows[i].id;
            assert(v.rows[i as int].id == id);
            if id < 1 || id > last_id {
                return None;
            }
            if i > 0 && rows[i - 1].id >= id {
                assert(v.rows[i - 1].id >= v.rows[i as int].id);
                return None;
            }
            assert forall|k: int, j: int| 0 <= k < j < i + 1 implies v.rows[k].id
                < v.rows[j].id by {
                if j == i && k < i - 1 {
                    assert(v.rows[k].id < v.rows[i - 1].id);
                }
            }
            i += 1;
        }
        Some(DataSource { rows, items, last_id })
    }

    /// The number of records in the table.
    pub fn get_classification_count(&self) -> (count: i64)
        requires
            self.wf(),
        ensures
            count == self@.rows.len(),
    {
        proof {
            lemma_valid_len(self@);
        }
        self.rows.len() as i64
    }

    /// The links of the items, in the order in which the store holds them.
    pub fn item_links(&self) -> (links: Vec<ItemLink>)
        ensures
            links@ == self@.items,
    {
        self.items.clone()
    }

    /// The record with the identifier `id`, or nothing where the table has none.
    pub fn get_classification_by_id(&self, id: i64) -> (found: Option<Classification>)
        requires
            self.wf(),
        ensures
            found is Some <==> has_id(self@.rows, id as int),
            found is Some ==> found->0@.id == id && self@.rows.contains(found->0@),
    {
        match self.position_of(id) {
            Some(i) => {
                assert(self@.rows[i as int] == self.rows[i as int]@);
                Some(self.rows[i].clone())
            },
            None => None,
        }
    }

    /// The index in the table of the record with the identifier `id`.
    fn position_of(&self, id: i64) -> (at: Option<usize>)
        ensures
            at is Some <==> has_id(self@.rows, id as int),
            at is Some ==> at->0 < self.rows.len() && self.rows[at->0 as int].id == id,
    {
        let mut i: usize = 0;
        while i < self.rows.len()
            invariant
                i <= self.rows.len(),
                forall|k: int| 0 <= k < i ==> self@.rows[k].id != id,
            decreases self.rows.len() - i,
        {
            if self.rows[i].id as i64 == id {
                assert(self@.rows[i as int].id == id);
                return Some(i);
            }
            assert(self@.rows[i as int].id != id);
            i += 1;
        }
        None
    }

    /// The records of the sibling scope `parent_id` by ascending rank, where
    /// no value stands for the root scope. Records of equal rank come by
    /// ascending identifier.
    pub fn get_classification_scope(&self, parent_id: Option<i64>) -> (list: Vec<Classification>)
        requires
            self.wf(),
        ensures
            views(list@) == listing(self@.rows, scope_key(parent_id)),
            ascending(views(list@)),
            by_rank_then_id(views(list@)),
            forall|r: ClassificationView|
                views(list@).contains(r) <==> self@.rows.contains(r) && r.parent_id == scope_key(
                    parent_id,
                ),
    {
        let ghost rows = self@.rows;
        let ghost scope = scope_key(parent_id);
        let mut out: Vec<Classification> = Vec::new();
        let mut i: usize = 0;
        assert(rows.take(0) =~= Seq::empty());
        assert(children(rows.take(0), scope).len() == 0) by {
            rows.take(0).lemma_filter_len(in_scope(scope));
        }
        while i < self.rows.len()
            invariant
                i <= self.rows.len(),
                rows == self@.rows,
                rows.len() == self.rows.len(),
                scope == scope_key(parent_id),
                views(out@) == listing(rows.take(i as int), scope),
            decreases self.rows.len() - i,
        {
            proof {
                lemma_take_step(rows, i as int, scope);
            }
            assert(rows[i as int] == self.rows[i as int]@);
            if same_scope(self.rows[i].parent_id, parent_id) {
                insert_sorted(&mut out, self.rows[i].clone());
            }
            i += 1;
        }
        proof {
            assert(rows.take(i as int) =~= rows);
            lemma_by_order(children(rows, scope));
            lemma_children_contains(rows, scope);
            assert(ascending_ids(rows));
            lemma_children_ascending_ids(rows, scope);
            lemma_by_order_ranked(children(rows, scope));
            assert forall|r: ClassificationView|
                views(out@).contains(r) <==> self@.rows.contains(r) && r.parent_id == scope_key(
                    parent_id,
                ) by {
                assert(by_order(children(rows, scope)).contains(r) <==> children(
                    rows,
                    scope,
                ).contains(r));
            }
        }
        out
    }

    /// With an identifier, the records of that sibling scope; with none,
    /// every record of the table, whatever its parent. Either way by
    /// ascending rank, records of equal rank by ascending identifier.
    pub fn get_classification(&self, parent_id: Option<i64>) -> (list: Vec<Classification>)
        requires
            self.wf(),
        ensures
            views(list@) == by_order(selection(self@.rows, parent_id)),
            ascending(views(list@)),
            by_rank_then_id(views(list@)),
            forall|r: ClassificationView|
                views(list@).contains(r) <==> self@.rows.contains(r) && (parent_id is Some
                    ==> r.parent_id == scope_key(parent_id)),
    {
        if parent_id.is_some() {
            return self.get_classification_scope(parent_id);
        }
        let ghost rows = self@.rows;
        let mut out: Vec<Classification> = Vec::new();
        let mut i: usize = 0;
        assert(rows.take(0) =~= Seq::empty());
        while i < self.rows.len()
            invariant
                i <= self.rows.len(),
                rows == self@.rows,
                rows.len() == self.rows.len(),
                views(out@) == by_order(rows.take(i as int)),
            decreases self.rows.len() - i,
        {
            proof {
                lemma_take_step(rows, i as int, None);
            }
            assert(rows[i as int] == self.rows[i as int]@);
            insert_sorted(&mut out, self.rows[i].clone());
            i += 1;
        }
        proof {
            assert(rows.take(i as int) =~= rows);
            lemma_by_order(rows);
            assert(ascending_ids(rows));
            lemma_by_order_ranked(rows);
        }
        out
    }

    /// Whether `get_classification` would list any record for `parent_id`.
    pub fn has_child_classification(&self, parent_id: Option<i64>) -> (any: bool)
        requires
            self.wf(),
        ensures
            any == (selection(self@.rows, parent_id).len() > 0),
            any == (by_order(selection(self@.rows, parent_id)).len() > 0),
            any == exists|r: ClassificationView|
                self@.rows.contains(r) && (parent_id is Some ==> r.parent_id == scope_key(
                    parent_id,
                )),
    {
        let list = self.get_classification(parent_id);
        proof {
            lemma_by_order(selection(self@.rows, parent_id));
            let l = views(list@);
            if l.len() > 0 {
                assert(l.contains(l[0]));
            }
            if exists|r: ClassificationView|
                self@.rows.contains(r) && (parent_id is Some ==> r.parent_id == scope_key(
                    parent_id,
                )) {
                let r = choose|r: ClassificationView|
                    self@.rows.contains(r) && (parent_id is Some ==> r.parent_id == scope_key(
                        parent_id,
                    ));
                assert(l.contains(r));
            }
        }
        list.len() > 0
    }

    /// The highest rank in the sibling scope `parent_id`, where no value
    /// stands for the root scope; 0 where the scope has no record.
    pub fn get_classification_max_order(&self, parent_id: Option<i64>) -> (max: i64)
        requires
            self.wf(),
        ensures
            max == max_order(self@.rows, scope_key(parent_id)),
            children(self@.rows, scope_key(parent_id)).len() == 0 ==> max == 0,
            children(self@.rows, scope_key(parent_id)).len() > 0 ==> has_order(
                children(self@.rows, scope_key(parent_id)),
                max as int,
            ),
            forall|r: ClassificationView|
                self@.rows.contains(r) && r.parent_id == scope_key(parent_id) ==> r.order <= max,
            i32::MIN <= max <= i32::MAX,
    {
        let ghost rows = self@.rows;
        let ghost scope = scope_key(parent_id);
        let mut found = false;
        let mut best: i32 = 0;
        let mut i: usize = 0;
        assert(rows.take(0) =~= Seq::empty());
        assert(children(rows.take(0), scope).len() == 0) by {
            rows.take(0).lemma_filter_len(in_scope(scope));
        }
        while i < self.rows.len()
            invariant
                i <= self.rows.len(),
                rows == self@.rows,
                rows.len() == self.rows.len(),
                scope == scope_key(parent_id),
                found == (children(rows.take(i as int), scope).len() > 0),
                best == highest_order(children(rows.take(i as int), scope)),
            decreases self.rows.len() - i,
        {
            proof {
                lemma_take_step(rows, i as int, scope);
                let c = children(rows.take(i as int), scope);
                assert(c.push(rows[i as int]).drop_last() =~= c);
            }
            assert(rows[i as int] == self.rows[i as int]@);
            if same_scope(self.rows[i].parent_id, parent_id) {
                if !found || self.rows[i].order > best {
                    best = self.rows[i].order;
                }
                found = true;
            }
            i += 1;
        }
        proof {
            assert(rows.take(i as int) =~= rows);
            let c = children(rows, scope);
            lemma_children_contains(rows, scope);
            if c.len() > 0 {
                lemma_highest_order(c);
            }
            assert forall|r: ClassificationView|
                self@.rows.contains(r) && r.parent_id == scope_key(parent_id) implies r.order
                <= best by {
                assert(c.contains(r));
                let k = choose|k: int| 0 <= k < c.len() && c[k] == r;
            }
        }
        best as i64
    }

    /// Adds a record to the sibling scope `parent_id` behind every record of
    /// that scope, under the next identifier, and moves the items of the
    /// parent to it. Returns the new record, or `InsertFailed` with the
    /// store unchanged where `can_insert` does not hold.
    pub fn insert_classification(
        &mut self,
        parent_id: Option<i64>,
        name: String,
        shortcut_key: Option<String>,
        global_shortcut_key: bool,
        data: String,
        type_: Option<i64>,
    ) -> (result: Result<Classification, StoreError>)
        requires
            old(self).wf(),
        ensures
            final(self).wf(),
            can_insert(old(self)@, parent_id, type_) ==> result is Ok && result->Ok_0@
                == new_record(
                old(self)@,
                parent_id,
                name@,
                text_of(shortcut_key),
                global_shortcut_key,
                data@,
                type_->0 as int,
            ) && final(self)@ == (StoreView {
                rows: old(self)@.rows.push(result->Ok_0@),
                items: links_after_insert(old(self)@.items, parent_id, result->Ok_0@.id),
                last_id: old(self)@.last_id + 1,
            }),
            !can_insert(old(self)@, parent_id, type_) ==> result == Err::<
                Classification,
                StoreError,
            >(StoreError::InsertFailed) && final(self)@ == old(self)@,
            result is Ok ==> forall|scope: Option<int>|
                dense(old(self)@.rows, scope) ==> dense(final(self)@.rows, scope),
            result is Ok && dense(old(self)@.rows, scope_key(parent_id)) ==> forall|k: int|
                0 <= k < listing(final(self)@.rows, scope_key(parent_id)).len() ==> (
                #[trigger] listing(final(self)@.rows, scope_key(parent_id))[k]).order == k + 1,
            result is Ok && children(old(self)@.rows, scope_key(parent_id)).len() == 0
                ==> result->Ok_0@.order == 1,
            result is Ok ==> listing(final(self)@.rows, scope_key(parent_id)) == listing(
                old(self)@.rows,
                scope_key(parent_id),
            ).push(result->Ok_0@),
            result is Ok && tree_shaped(old(self)@.rows) && (parent_id is Some ==> has_id(
                old(self)@.rows,
                parent_id->0 as int,
            )) ==> tree_shaped(final(self)@.rows),
    {
        let kind: i32 = match type_ {
            Some(t) => {
                if t < i32::MIN as i64 || t > i32::MAX as i64 {
                    return Err(StoreError::InsertFailed);
                }
                t as i32
            },
            None => {
                return Err(StoreError::InsertFailed);
            },
        };
        let parent: Option<i32> = match parent_id {
            Some(p) => {
                if p < i32::MIN as i64 || p > i32::MAX as i64 {
                    return Err(StoreError::InsertFailed);
                }
                Some(p as i32)
            },
            None => None,
        };
        let max = self.get_classification_max_order(parent_id);
        if self.last_id == i32::MAX || max >= i32::MAX as i64 {
            return Err(StoreError::InsertFailed);
        }
        let id: i32 = self.last_id + 1;
        let record = Classification {
            id,
            parent_id: parent,
            name: Some(name),
            type_: kind,
            data,
            shortcut_key,
            global_shortcut_key,
            order: (max + 1) as i32,
        };
        let copy = record.clone();
        let ghost before = self@;
        self.rows.push(record);
        self.last_id = id;
        if let Some(p) = parent_id {
            relink(&mut self.items, p, id);
        }
        proof {
            assert(self@.rows =~= before.rows.push(copy@));
            assert forall|scope: Option<int>| dense(before.rows, scope) implies dense(
                self@.rows,
                scope,
            ) by {
                lemma_children_push(before.rows, copy@, scope);
                if copy@.parent_id == scope {
                    lemma_push_dense(children(before.rows, scope), copy@);
                }
            }
            if tree_shaped(before.rows) && (parent_id is Some ==> has_id(
                before.rows,
                parent_id->0 as int,
            )) {
                lemma_push_tree_shaped(before.rows, copy@);
            }
            lemma_children_push(before.rows, copy@, scope_key(parent_id));
            lemma_push_listing(children(before.rows, scope_key(parent_id)), copy@);
            if dense(before.rows, scope_key(parent_id)) {
                lemma_by_order(children(self@.rows, scope_key(parent_id)));
                lemma_dense_listing(children(self@.rows, scope_key(parent_id)));
            }
        }
        Ok(copy)
    }

    /// Overwrites name, kind, settings text and shortcut of the record `id`;
    /// parent, rank and identifier stay. Returns whether the table has such a
    /// record. Where it has one and the kind is missing or does not fit a
    /// record, returns `UpdateFailed` and changes nothing.
    pub fn update_classification(
        &mut self,
        id: i64,
        name: String,
        shortcut_key: Option<String>,
        global_shortcut_key: bool,
        data: String,
        type_: Option<i64>,
    ) -> (result: Result<bool, StoreError>)
        requires
            old(self).wf(),
        ensures
            final(self).wf(),
            final(self)@.items == old(self)@.items,
            final(self)@.last_id == old(self)@.last_id,
            final(self)@.rows.len() == old(self)@.rows.len(),
            forall|scope: Option<int>|
                dense(old(self)@.rows, scope) ==> dense(final(self)@.rows, scope),
            tree_shaped(old(self)@.rows) ==> tree_shaped(final(self)@.rows),
            !has_id(old(self)@.rows, id as int) ==> result == Ok::<bool, StoreError>(false)
                && final(self)@ == old(self)@,
            has_id(old(self)@.rows, id as int) && !(type_ is Some && fits(type_->0)) ==> result
                == Err::<bool, StoreError>(StoreError::UpdateFailed) && final(self)@ == old(
                self,
            )@,
            has_id(old(self)@.rows, id as int) && type_ is Some && fits(type_->0) ==> result
                == Ok::<bool, StoreError>(true) && forall|i: int|
                0 <= i < old(self)@.rows.len() ==> #[trigger] final(self)@.rows[i] == if old(
                    self,
                )@.rows[i].id == id {
                    overwritten(
                        old(self)@.rows[i],
                        name@,
                        text_of(shortcut_key),
                        global_shortcut_key,
                        data@,
                        type_->0 as int,
                    )
                } else {
                    old(self)@.rows[i]
                },
    {
        let at = match self.position_of(id) {
            Some(at) => at,
            None => {
                return Ok(false);
            },
        };
        let kind: i32 = match type_ {
            Some(t) => {
                if t < i32::MIN as i64 || t > i32::MAX as i64 {
                    return Err(StoreError::UpdateFailed);
                }
                t as i32
            },
            None => {
                return Err(StoreError::UpdateFailed);
            },
        };
        let ghost before = self@;
        let record = Classification {
            id: self.rows[at].id,
            parent_id: self.rows[at].parent_id,
            name: Some(name),
            type_: kind,
            data,
            shortcut_key,
            global_shortcut_key,
            order: self.rows[at].order,
        };
        proof {
            lemma_views_update(self.rows@, at as int, record);
            assert(before.rows[at as int] == self.rows[at as int]@);
        }
        self.rows.set(at, record);
        proof {
            lemma_same_ranks(before.rows, self@.rows);
        }
        Ok(true)
    }

    /// Overwrites the settings text of the record `id` and returns the
    /// number of records changed: 1, or 0 where the table has no such record.
    pub fn update_classification_data(&mut self, id: i64, data: String) -> (changed: i64)
        requires
            old(self).wf(),
        ensures
            final(self).wf(),
            final(self)@.items == old(self)@.items,
            final(self)@.last_id == old(self)@.last_id,
            final(self)@.rows.len() == old(self)@.rows.len(),
            forall|scope: Option<int>|
                dense(old(self)@.rows, scope) ==> dense(final(self)@.rows, scope),
            tree_shaped(old(self)@.rows) ==> tree_shaped(final(self)@.rows),
            changed == if has_id(old(self)@.rows, id as int) {
                1i64
            } else {
                0i64
            },
            !has_id(old(self)@.rows, id as int) ==> final(self)@ == old(self)@,
            forall|i: int|
                0 <= i < old(self)@.rows.len() ==> #[trigger] final(self)@.rows[i] == if old(
                    self,
                )@.rows[i].id == id {
                    with_data(old(self)@.rows[i], data@)
                } else {
                    old(self)@.rows[i]
                },
    {
        let at = match self.position_of(id) {
            Some(at) => at,
            None => {
                return 0;
            },
        };
        let ghost before = self@;
        let record = Classification {
            id: self.rows[at].id,
            parent_id: self.rows[at].parent_id,
            name: copy_text(&self.rows[at].name),
            type_: self.rows[at].type_,
            data,
            shortcut_key: copy_text(&self.rows[at].shortcut_key),
            global_shortcut_key: self.rows[at].global_shortcut_key,
            order: self.rows[at].order,
        };
        proof {
            lemma_views_update(self.rows@, at as int, record);
            assert(before.rows[at as int] == self.rows[at as int]@);
        }
        self.rows.set(at, record);
        proof {
            lemma_same_ranks(before.rows, self@.rows);
        }
        1
    }

    /// Compacts the ranks of the sibling scope `parent_id`, where no value
    /// stands for the root scope: the records of the scope, taken by
    /// ascending rank, get the ranks 1, 2, and so on. Nothing else changes.
    pub fn reorder_classification(&mut self, parent_id: Option<i64>)
        requires
            old(self).wf(),
        ensures
            final(self).wf(),
            final(self)@.items == old(self)@.items,
            final(self)@.last_id == old(self)@.last_id,
            reordered(old(self)@.rows, final(self)@.rows, scope_key(parent_id)),
            dense(final(self)@.rows, scope_key(parent_id)),
            listing(final(self)@.rows, scope_key(parent_id)) == renumbered(
                listing(old(self)@.rows, scope_key(parent_id)),
            ),
            forall|scope: Option<int>|
                scope != scope_key(parent_id) ==> children(final(self)@.rows, scope) == children(
                    old(self)@.rows,
                    scope,
                ),
            tree_shaped(old(self)@.rows) ==> tree_shaped(final(self)@.rows),
    {
        let list = self.get_classification_scope(parent_id);
        let ghost before = self@;
        let ghost scope = scope_key(parent_id);
        let ghost l = listing(before.rows, scope);
        proof {
            lemma_valid_len(before);
            lemma_children_distinct(before.rows, scope);
            lemma_by_order_distinct(children(before.rows, scope));
            lemma_by_order(children(before.rows, scope));
            before.rows.lemma_filter_len(in_scope(scope));
        }
        let mut k: usize = 0;
        while k < list.len()
            invariant
                k <= list.len(),
                views(list@) == l,
                l == listing(before.rows, scope),
                l.len() <= before.rows.len() <= i32::MAX,
                valid(before),
                distinct_ids(l),
                forall|r: ClassificationView|
                    l.contains(r) <==> before.rows.contains(r) && r.parent_id == scope,
                self@.items == before.items,
                self@.last_id == before.last_id,
                self@.rows.len() == before.rows.len(),
                forall|i: int|
                    0 <= i < before.rows.len() ==> #[trigger] self@.rows[i] == with_order(
                        before.rows[i],
                        self@.rows[i].order,
                    ),
                forall|i: int|
                    0 <= i < before.rows.len() && before.rows[i].parent_id != scope
                        ==> #[trigger] self@.rows[i] == before.rows[i],
                forall|i: int, j: int|
                    #![trigger before.rows[i], l[j]]
                    0 <= i < before.rows.len() && 0 <= j < k && before.rows[i].id == l[j].id
                        ==> self@.rows[i].order == j + 1,
            decreases list.len() - k,
        {
            let id = list[k].id;
            assert(l[k as int] == list[k as int]@);
            assert(l.contains(l[k as int]));
            let ghost w = choose|w: int|
                0 <= w < before.rows.len() && before.rows[w] == l[k as int];
            assert(self@.rows[w] == with_order(before.rows[w], self@.rows[w].order));
            assert(has_id(self@.rows, id as int));
            match self.position_of(id as i64) {
                Some(at) => {
                    assert(self@.rows[at as int] == with_order(
                        before.rows[at as int],
                        self@.rows[at as int].order,
                    ));
                    assert(at == w);
                    let ghost prior = self@;
                    let record = Classification {
                        id: self.rows[at].id,
                        parent_id: self.rows[at].parent_id,
                        name: copy_text(&self.rows[at].name),
                        type_: self.rows[at].type_,
                        data: self.rows[at].data.clone(),
                        shortcut_key: copy_text(
                            &self.rows[at].shortcut_key,
                        ),
                        global_shortcut_key: self.rows[at].global_shortcut_key,
                        order: (k + 1) as i32,
                    };
                    proof {
                        lemma_views_update(self.rows@, at as int, record);
                        assert(prior.rows[at as int] == self.rows[at as int]@);
                    }
                    self.rows.set(at, record);
                    assert forall|i: int, j: int|
                        #![trigger before.rows[i], l[j]]
                        0 <= i < before.rows.len() && 0 <= j < k + 1 && before.rows[i].id
                            == l[j].id implies self@.rows[i].order == j + 1 by {
                        if i == at {
                            assert(l[j].id == l[k as int].id);
                        } else {
                            assert(self@.rows[i] == prior.rows[i]);
                        }
                    }
                },
                None => {},
            }
            k += 1;
        }
        proof {
            assert(distinct_ids(before.rows));
            assert(reordered(before.rows, self@.rows, scope));
            lemma_reordered_dense(before.rows, self@.rows, scope);
            lemma_reordered_listing(before.rows, self@.rows, scope);
            assert forall|other: Option<int>| other != scope implies children(self@.rows, other)
                == children(before.rows, other) by {
                assert forall|i: int|
                    0 <= i < before.rows.len() && (self@.rows[i].parent_id == other
                        || before.rows[i].parent_id == other) implies self@.rows[i]
                    == before.rows[i] by {
                    assert(self@.rows[i] == with_order(before.rows[i], self@.rows[i].order));
                }
                lemma_children_same(self@.rows, before.rows, other);
            }
            assert forall|i: int| 0 <= i < self@.rows.len() implies (#[trigger] before.rows[i]).id
                == self@.rows[i].id && before.rows[i].parent_id == self@.rows[i].parent_id by {
                assert(self@.rows[i] == with_order(before.rows[i], self@.rows[i].order));
            }
            if tree_shaped(before.rows) {
                lemma_same_tree_shape(before.rows, self@.rows);
            }
        }
    }
}

impl Classification {
    /// The records of the sibling scope `parent_id` in `data_source`, by
    /// ascending rank.
    pub fn get_child_list(&self, parent_id: i64, data_source: &DataSource) -> (list: Vec<
        Classification,
    >)
        requires
            data_source.wf(),
        ensures
            views(list@) == listing(data_source@.rows, Some(parent_id as int)),
    {
        data_source.get_classification(Some(parent_id))
    }
}

} // verus!
