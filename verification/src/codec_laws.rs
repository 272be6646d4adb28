//! What holds of the text of a settings value: reading gives back what
//! was written, and nothing is read that was not written.

use vstd::prelude::*;
use crate::classification::{ClassificationDataView, ItemLayout, ItemShowOnly, ItemSort};
use crate::codec::{
    bool_at, bool_text, decode_spec, encode_spec, int_at, key_at, key_text, layout_at,
    layout_text, null_text, opt_int, opt_int_at, opt_text, opt_text_at, show_only_at,
    show_only_text, sort_at, sort_text,
};
use crate::number::{decimal, is_digit, lemma_decimal_at, lemma_decimal_read, lemma_digits};
use crate::text::{
    escaped, lemma_escaped_unescape, lemma_unescape_escaped, quoted, quoted_at, starts_with_at,
};

verus! {

/// A text that begins with `q + piece` begins with `q` and holds `piece`
/// behind it.
proof fn lemma_split(t: Seq<char>, q: Seq<char>, piece: Seq<char>)
    requires
        starts_with_at(t, 0, q + piece),
    ensures
        starts_with_at(t, 0, q),
        starts_with_at(t, q.len() as int, piece),
{
    let whole = q + piece;
    assert forall|i: int| 0 <= i < q.len() implies t[0 + i] == #[trigger] q[i] by {
        assert(whole[i] == q[i]);
    }
    assert forall|i: int| 0 <= i < piece.len() implies t[q.len() + i] == #[trigger] piece[i] by {
        assert(whole[q.len() + i] == piece[i]);
        assert(t[0 + (q.len() + i)] == whole[q.len() + i]);
    }
}

/// A text that begins with `q` and holds `piece` behind it begins with
/// `q + piece`.
proof fn lemma_join(t: Seq<char>, q: Seq<char>, piece: Seq<char>)
    requires
        starts_with_at(t, 0, q),
        starts_with_at(t, q.len() as int, piece),
    ensures
        starts_with_at(t, 0, q + piece),
{
    let whole = q + piece;
    assert forall|i: int| 0 <= i < whole.len() implies t[0 + i] == #[trigger] whole[i] by {
        if i < q.len() {
            assert(whole[i] == q[i]);
        } else {
            assert(whole[i] == piece[i - q.len()]);
            assert(t[q.len() + (i - q.len())] == piece[i - q.len()]);
        }
    }
}

/// Two texts that stand at one place and differ in some character that
/// both have do not both stand there.
proof fn lemma_differ(t: Seq<char>, pos: int, a: Seq<char>, b: Seq<char>, i: int)
    requires
        starts_with_at(t, pos, a),
        0 <= i < a.len(),
        0 <= i < b.len(),
        a[i] != b[i],
    ensures
        !starts_with_at(t, pos, b),
{
    if starts_with_at(t, pos, b) {
        assert(t[pos + i] == a[i]);
        assert(t[pos + i] == b[i]);
    }
}

/// Every key but the first begins with a comma or closes the object: none
/// begins with a digit.
proof fn lemma_key_head(k: int)
    requires
        1 <= k <= 11,
    ensures
        key_text(k).len() > 0,
        !is_digit(key_text(k)[0]),
{
    reveal_strlit(",\"associateFolderPath\":");
    reveal_strlit(",\"associateFolderHiddenItems\":");
    reveal_strlit(",\"itemLayout\":");
    reveal_strlit(",\"itemSort\":");
    reveal_strlit(",\"itemColumnNumber\":");
    reveal_strlit(",\"itemIconSize\":");
    reveal_strlit(",\"itemShowOnly\":");
    reveal_strlit(",\"fixed\":");
    reveal_strlit(",\"aggregateItemCount\":");
    reveal_strlit(",\"excludeSearch\":");
    reveal_strlit("}");
}

/// Behind a place where nothing was read, nothing is read.
pub proof fn lemma_nothing_behind_nothing(t: Seq<char>)
    ensures
        forall|k: int| #[trigger] key_at(t, -1, k) == -1,
        opt_text_at(t, -1).1 == -1,
        int_at(t, -1).1 == -1,
        opt_int_at(t, -1).1 == -1,
        bool_at(t, -1).1 == -1,
        layout_at(t, -1).1 == -1,
        sort_at(t, -1).1 == -1,
        show_only_at(t, -1).1 == -1,
{
    reveal(key_at);
    reveal(opt_text_at);
    reveal(int_at);
    reveal(opt_int_at);
    reveal(bool_at);
    reveal(layout_at);
    reveal(sort_at);
    reveal(show_only_at);
}

/// Reading a key where it was written ends behind it.
proof fn lemma_key_at(t: Seq<char>, pos: int, k: int)
    requires
        starts_with_at(t, pos, key_text(k)),
    ensures
        key_at(t, pos, k) == pos + key_text(k).len(),
{
    reveal(key_at);
}

/// Reading an optional text where one was written gives it back.
proof fn lemma_opt_text_at(t: Seq<char>, pos: int, v: Option<Seq<char>>)
    requires
        starts_with_at(t, pos, opt_text(v)),
    ensures
        opt_text_at(t, pos) == (v, pos + opt_text(v).len()),
{
    reveal(opt_text_at);
    reveal_strlit("null");
    match v {
        Some(s) => {
            let q = quoted(s);
            let inner = escaped(s).push('"');
            assert(q =~= seq!['"'] + inner);
            assert(q[0] == '"');
            lemma_differ(t, pos, q, null_text(), 0);
            assert(t[pos + 0] == q[0]);
            assert(starts_with_at(t, pos + 1, inner)) by {
                assert forall|i: int| 0 <= i < inner.len() implies t[pos + 1 + i]
                    == #[trigger] inner[i] by {
                    assert(q[i + 1] == inner[i]);
                    assert(t[pos + (i + 1)] == q[i + 1]);
                }
            }
            lemma_unescape_escaped(t, pos + 1, s);
        },
        None => {},
    }
}

/// Reading an integer where one was written, with no digit behind it, gives
/// it back.
proof fn lemma_int_at(t: Seq<char>, pos: int, v: i32)
    requires
        starts_with_at(t, pos, decimal(v as int)),
        pos + decimal(v as int).len() == t.len() || !is_digit(t[pos + decimal(v as int).len()]),
    ensures
        int_at(t, pos) == (v, pos + decimal(v as int).len()),
{
    reveal(int_at);
    lemma_decimal_at(t, pos, v);
}

/// Reading an optional integer where one was written, with no digit behind
/// it, gives it back.
proof fn lemma_opt_int_at(t: Seq<char>, pos: int, v: Option<i32>)
    requires
        starts_with_at(t, pos, opt_int(v)),
        pos + opt_int(v).len() == t.len() || !is_digit(t[pos + opt_int(v).len()]),
    ensures
        opt_int_at(t, pos) == (v, pos + opt_int(v).len()),
{
    reveal(opt_int_at);
    reveal_strlit("null");
    match v {
        Some(n) => {
            let d = decimal(n as int);
            if n < 0 {
                lemma_digits((-n) as nat);
                assert(d[0] == '-');
            } else {
                lemma_digits(n as nat);
                assert(is_digit(d[0]));
            }
            lemma_differ(t, pos, d, null_text(), 0);
            lemma_decimal_at(t, pos, n);
        },
        None => {},
    }
}

/// Reading a truth value where one was written gives it back.
proof fn lemma_bool_at(t: Seq<char>, pos: int, v: bool)
    requires
        starts_with_at(t, pos, bool_text(v)),
    ensures
        bool_at(t, pos) == (v, pos + bool_text(v).len()),
{
    reveal(bool_at);
    reveal_strlit("true");
    reveal_strlit("false");
    if !v {
        lemma_differ(t, pos, bool_text(false), bool_text(true), 0);
    }
}

/// Reading a layout where one was written gives it back.
proof fn lemma_layout_at(t: Seq<char>, pos: int, v: ItemLayout)
    requires
        starts_with_at(t, pos, layout_text(v)),
    ensures
        layout_at(t, pos) == (v, pos + layout_text(v).len()),
{
    reveal(layout_at);
    reveal_strlit("\"default\"");
    reveal_strlit("\"tile\"");
    reveal_strlit("\"list\"");
    match v {
        ItemLayout::default => {},
        ItemLayout::tile => {
            lemma_differ(t, pos, layout_text(v), layout_text(ItemLayout::default), 1);
        },
        ItemLayout::list => {
            lemma_differ(t, pos, layout_text(v), layout_text(ItemLayout::default), 1);
            lemma_differ(t, pos, layout_text(v), layout_text(ItemLayout::tile), 1);
        },
    }
}

/// Reading a sort where one was written gives it back.
proof fn lemma_sort_at(t: Seq<char>, pos: int, v: ItemSort)
    requires
        starts_with_at(t, pos, sort_text(v)),
    ensures
        sort_at(t, pos) == (v, pos + sort_text(v).len()),
{
    reveal(sort_at);
    reveal_strlit("\"default\"");
    reveal_strlit("\"initial\"");
    reveal_strlit("\"openNumber\"");
    reveal_strlit("\"lastOpen\"");
    match v {
        ItemSort::default => {},
        ItemSort::initial => {
            lemma_differ(t, pos, sort_text(v), sort_text(ItemSort::default), 1);
        },
        ItemSort::openNumber => {
            lemma_differ(t, pos, sort_text(v), sort_text(ItemSort::default), 1);
            lemma_differ(t, pos, sort_text(v), sort_text(ItemSort::initial), 1);
        },
        ItemSort::lastOpen => {
            lemma_differ(t, pos, sort_text(v), sort_text(ItemSort::default), 1);
            lemma_differ(t, pos, sort_text(v), sort_text(ItemSort::initial), 1);
            lemma_differ(t, pos, sort_text(v), sort_text(ItemSort::openNumber), 1);
        },
    }
}

/// Reading a filter where one was written gives it back.
proof fn lemma_show_only_at(t: Seq<char>, pos: int, v: ItemShowOnly)
    requires
        starts_with_at(t, pos, show_only_text(v)),
    ensures
        show_only_at(t, pos) == (v, pos + show_only_text(v).len()),
{
    reveal(show_only_at);
    reveal_strlit("\"default\"");
    reveal_strlit("\"file\"");
    reveal_strlit("\"folder\"");
    match v {
        ItemShowOnly::default => {},
        ItemShowOnly::file => {
            lemma_differ(t, pos, show_only_text(v), show_only_text(ItemShowOnly::default), 1);
        },
        ItemShowOnly::folder => {
            lemma_differ(t, pos, show_only_text(v), show_only_text(ItemShowOnly::default), 1);
            lemma_differ(t, pos, show_only_text(v), show_only_text(ItemShowOnly::file), 2);
        },
    }
}

/// Where `t` begins with `q + piece + key`, `piece` stands behind `q` and
/// the key with the number `k` behind `piece`, and no digit follows `piece`.
proof fn lemma_field(t: Seq<char>, q: Seq<char>, piece: Seq<char>, k: int)
    requires
        1 <= k <= 11,
        starts_with_at(t, 0, q + piece + key_text(k)),
    ensures
        starts_with_at(t, 0, q),
        starts_with_at(t, q.len() as int, piece),
        starts_with_at(t, (q.len() + piece.len()) as int, key_text(k)),
        !is_digit(t[(q.len() + piece.len()) as int]),
        key_at(t, (q.len() + piece.len()) as int, k) == (q + piece + key_text(k)).len(),
{
    lemma_split(t, q + piece, key_text(k));
    lemma_split(t, q, piece);
    lemma_key_head(k);
    assert(t[(q + piece).len() as int + 0] == key_text(k)[0]);
    lemma_key_at(t, (q.len() + piece.len()) as int, k);
}

/// Reading what `encode` writes gives the settings back.
pub proof fn lemma_decode_encode(d: ClassificationDataView)
    ensures
        decode_spec(encode_spec(d)) == Some(d),
{
    let t = encode_spec(d);
    let q0 = key_text(0);
    let q1 = q0 + opt_text(d.icon) + key_text(1);
    let q2 = q1 + opt_text(d.associate_folder_path) + key_text(2);
    let q3 = q2 + opt_text(d.associate_folder_hidden_items) + key_text(3);
    let q4 = q3 + layout_text(d.item_layout) + key_text(4);
    let q5 = q4 + sort_text(d.item_sort) + key_text(5);
    let q6 = q5 + opt_int(d.item_column_number) + key_text(6);
    let q7 = q6 + opt_int(d.item_icon_size) + key_text(7);
    let q8 = q7 + show_only_text(d.item_show_only) + key_text(8);
    let q9 = q8 + bool_text(d.fixed) + key_text(9);
    let q10 = q9 + decimal(d.aggregate_item_count as int) + key_text(10);
    let q11 = q10 + bool_text(d.exclude_search) + key_text(11);
    assert(t == q11);
    assert(starts_with_at(t, 0, q11));
    lemma_field(t, q10, bool_text(d.exclude_search), 11);
    lemma_field(t, q9, decimal(d.aggregate_item_count as int), 10);
    lemma_field(t, q8, bool_text(d.fixed), 9);
    lemma_field(t, q7, show_only_text(d.item_show_only), 8);
    lemma_field(t, q6, opt_int(d.item_icon_size), 7);
    lemma_field(t, q5, opt_int(d.item_column_number), 6);
    lemma_field(t, q4, sort_text(d.item_sort), 5);
    lemma_field(t, q3, layout_text(d.item_layout), 4);
    lemma_field(t, q2, opt_text(d.associate_folder_hidden_items), 3);
    lemma_field(t, q1, opt_text(d.associate_folder_path), 2);
    lemma_field(t, q0, opt_text(d.icon), 1);
    lemma_key_at(t, 0, 0);
    lemma_opt_text_at(t, q0.len() as int, d.icon);
    lemma_opt_text_at(t, q1.len() as int, d.associate_folder_path);
    lemma_opt_text_at(t, q2.len() as int, d.associate_folder_hidden_items);
    lemma_layout_at(t, q3.len() as int, d.item_layout);
    lemma_sort_at(t, q4.len() as int, d.item_sort);
    lemma_opt_int_at(t, q5.len() as int, d.item_column_number);
    lemma_opt_int_at(t, q6.len() as int, d.item_icon_size);
    lemma_show_only_at(t, q7.len() as int, d.item_show_only);
    lemma_bool_at(t, q8.len() as int, d.fixed);
    lemma_int_at(t, q9.len() as int, d.aggregate_item_count);
    lemma_bool_at(t, q10.len() as int, d.exclude_search);
}

/// Where a key is read, it stands there.
proof fn lemma_key_read(t: Seq<char>, pos: int, k: int)
    requires
        key_at(t, pos, k) >= 0,
    ensures
        pos >= 0,
        starts_with_at(t, pos, key_text(k)),
        key_at(t, pos, k) == pos + key_text(k).len(),
{
    reveal(key_at);
}

/// Where an optional text is read, it stands there as it is written.
proof fn lemma_opt_text_read(t: Seq<char>, pos: int)
    requires
        opt_text_at(t, pos).1 >= 0,
    ensures
        pos >= 0,
        starts_with_at(t, pos, opt_text(opt_text_at(t, pos).0)),
        opt_text_at(t, pos).1 == pos + opt_text(opt_text_at(t, pos).0).len(),
{
    reveal(opt_text_at);
    if !starts_with_at(t, pos, null_text()) {
        let (s, end) = quoted_at(t, pos)->0;
        lemma_escaped_unescape(t, pos + 1);
        let inner = escaped(s).push('"');
        let q = quoted(s);
        assert(q =~= seq!['"'] + inner);
        assert forall|i: int| 0 <= i < q.len() implies t[pos + i] == #[trigger] q[i] by {
            if i > 0 {
                assert(q[i] == inner[i - 1]);
                assert(t[pos + 1 + (i - 1)] == inner[i - 1]);
            }
        }
    }
}

/// Where an integer is read, it stands there as it is written.
proof fn lemma_int_read(t: Seq<char>, pos: int)
    requires
        int_at(t, pos).1 >= 0,
    ensures
        pos >= 0,
        starts_with_at(t, pos, decimal(int_at(t, pos).0 as int)),
        int_at(t, pos).1 == pos + decimal(int_at(t, pos).0 as int).len(),
{
    reveal(int_at);
    lemma_decimal_read(t, pos);
}

/// Where an optional integer is read, it stands there as it is written.
proof fn lemma_opt_int_read(t: Seq<char>, pos: int)
    requires
        opt_int_at(t, pos).1 >= 0,
    ensures
        pos >= 0,
        starts_with_at(t, pos, opt_int(opt_int_at(t, pos).0)),
        opt_int_at(t, pos).1 == pos + opt_int(opt_int_at(t, pos).0).len(),
{
    reveal(opt_int_at);
    if !starts_with_at(t, pos, null_text()) {
        lemma_decimal_read(t, pos);
    }
}

/// Where a truth value is read, it stands there as it is written.
proof fn lemma_bool_read(t: Seq<char>, pos: int)
    requires
        bool_at(t, pos).1 >= 0,
    ensures
        pos >= 0,
        starts_with_at(t, pos, bool_text(bool_at(t, pos).0)),
        bool_at(t, pos).1 == pos + bool_text(bool_at(t, pos).0).len(),
{
    reveal(bool_at);
}

/// Where a layout is read, it stands there as it is written.
proof fn lemma_layout_read(t: Seq<char>, pos: int)
    requires
        layout_at(t, pos).1 >= 0,
    ensures
        pos >= 0,
        starts_with_at(t, pos, layout_text(layout_at(t, pos).0)),
        layout_at(t, pos).1 == pos + layout_text(layout_at(t, pos).0).len(),
{
    reveal(layout_at);
}

/// Where a sort is read, it stands there as it is written.
proof fn lemma_sort_read(t: Seq<char>, pos: int)
    requires
        sort_at(t, pos).1 >= 0,
    ensures
        pos >= 0,
        starts_with_at(t, pos, sort_text(sort_at(t, pos).0)),
        sort_at(t, pos).1 == pos + sort_text(sort_at(t, pos).0).len(),
{
    reveal(sort_at);
}

/// Where a filter is read, it stands there as it is written.
proof fn lemma_show_only_read(t: Seq<char>, pos: int)
    requires
        show_only_at(t, pos).1 >= 0,
    ensures
        pos >= 0,
        starts_with_at(t, pos, show_only_text(show_only_at(t, pos).0)),
        show_only_at(t, pos).1 == pos + show_only_text(show_only_at(t, pos).0).len(),
{
    reveal(show_only_at);
}

/// A text that begins with `q`, then holds `piece` and behind it the key
/// with the number `k`, begins with the three one behind the other.
proof fn lemma_field_read(t: Seq<char>, q: Seq<char>, piece: Seq<char>, k: int)
    requires
        starts_with_at(t, 0, q),
        starts_with_at(t, q.len() as int, piece),
        starts_with_at(t, (q.len() + piece.len()) as int, key_text(k)),
    ensures
        starts_with_at(t, 0, q + piece + key_text(k)),
        (q + piece + key_text(k)).len() == q.len() + piece.len() + key_text(k).len(),
{
    lemma_join(t, q, piece);
    lemma_join(t, q + piece, key_text(k));
}

/// What is read was written: a text that holds a settings value is the text
/// of that value.
pub proof fn lemma_encode_decode(t: Seq<char>)
    requires
        decode_spec(t) is Some,
    ensures
        encode_spec(decode_spec(t)->0) == t,
{
    let d = decode_spec(t)->0;
    let pos0 = key_at(t, 0, 0);
    let icon = opt_text_at(t, pos0);
    let pos1 = key_at(t, icon.1, 1);
    let path = opt_text_at(t, pos1);
    let pos2 = key_at(t, path.1, 2);
    let hidden = opt_text_at(t, pos2);
    let pos3 = key_at(t, hidden.1, 3);
    let layout = layout_at(t, pos3);
    let pos4 = key_at(t, layout.1, 4);
    let sort = sort_at(t, pos4);
    let pos5 = key_at(t, sort.1, 5);
    let column = opt_int_at(t, pos5);
    let pos6 = key_at(t, column.1, 6);
    let size = opt_int_at(t, pos6);
    let pos7 = key_at(t, size.1, 7);
    let show = show_only_at(t, pos7);
    let pos8 = key_at(t, show.1, 8);
    let fixed = bool_at(t, pos8);
    let pos9 = key_at(t, fixed.1, 9);
    let count = int_at(t, pos9);
    let pos10 = key_at(t, count.1, 10);
    let exclude = bool_at(t, pos10);
    let pos11 = key_at(t, exclude.1, 11);
    assert(pos11 == t.len());
    lemma_key_read(t, exclude.1, 11);
    lemma_bool_read(t, pos10);
    lemma_key_read(t, count.1, 10);
    lemma_int_read(t, pos9);
    lemma_key_read(t, fixed.1, 9);
    lemma_bool_read(t, pos8);
    lemma_key_read(t, show.1, 8);
    lemma_show_only_read(t, pos7);
    lemma_key_read(t, size.1, 7);
    lemma_opt_int_read(t, pos6);
    lemma_key_read(t, column.1, 6);
    lemma_opt_int_read(t, pos5);
    lemma_key_read(t, sort.1, 5);
    lemma_sort_read(t, pos4);
    lemma_key_read(t, layout.1, 4);
    lemma_layout_read(t, pos3);
    lemma_key_read(t, hidden.1, 3);
    lemma_opt_text_read(t, pos2);
    lemma_key_read(t, path.1, 2);
    lemma_opt_text_read(t, pos1);
    lemma_key_read(t, icon.1, 1);
    lemma_opt_text_read(t, pos0);
    lemma_key_read(t, 0, 0);
    let q0 = key_text(0);
    assert(q0.len() == pos0);
    let q1 = q0 + opt_text(d.icon) + key_text(1);
    lemma_field_read(t, q0, opt_text(d.icon), 1);
    assert(q1.len() == pos1);
    let q2 = q1 + opt_text(d.associate_folder_path) + key_text(2);
    lemma_field_read(t, q1, opt_text(d.associate_folder_path), 2);
    assert(q2.len() == pos2);
    let q3 = q2 + opt_text(d.associate_folder_hidden_items) + key_text(3);
    lemma_field_read(t, q2, opt_text(d.associate_folder_hidden_items), 3);
    assert(q3.len() == pos3);
    let q4 = q3 + layout_text(d.item_layout) + key_text(4);
    lemma_field_read(t, q3, layout_text(d.item_layout), 4);
    assert(q4.len() == pos4);
    let q5 = q4 + sort_text(d.item_sort) + key_text(5);
    lemma_field_read(t, q4, sort_text(d.item_sort), 5);
    assert(q5.len() == pos5);
    let q6 = q5 + opt_int(d.item_column_number) + key_text(6);
    lemma_field_read(t, q5, opt_int(d.item_column_number), 6);
    assert(q6.len() == pos6);
    let q7 = q6 + opt_int(d.item_icon_size) + key_text(7);
    lemma_field_read(t, q6, opt_int(d.item_icon_size), 7);
    assert(q7.len() == pos7);
    let q8 = q7 + show_only_text(d.item_show_only) + key_text(8);
    lemma_field_read(t, q7, show_only_text(d.item_show_only), 8);
    assert(q8.len() == pos8);
    let q9 = q8 + bool_text(d.fixed) + key_text(9);
    lemma_field_read(t, q8, bool_text(d.fixed), 9);
    assert(q9.len() == pos9);
    let q10 = q9 + decimal(d.aggregate_item_count as int) + key_text(10);
    lemma_field_read(t, q9, decimal(d.aggregate_item_count as int), 10);
    assert(q10.len() == pos10);
    let q11 = q10 + bool_text(d.exclude_search) + key_text(11);
    lemma_field_read(t, q10, bool_text(d.exclude_search), 11);
    assert(q11.len() == t.len());
    assert(q11 =~= t) by {
        assert forall|i: int| 0 <= i < t.len() implies q11[i] == t[i] by {
            assert(t[0 + i] == q11[i]);
        }
    }
}

/// A text holds a settings value exactly where it is the text of that
/// value.
pub proof fn lemma_decode_exact(t: Seq<char>, d: ClassificationDataView)
    ensures
        decode_spec(t) == Some(d) <==> encode_spec(d) == t,
{
    if decode_spec(t) == Some(d) {
        lemma_encode_decode(t);
    }
    if encode_spec(d) == t {
        lemma_decode_encode(d);
    }
}

/// Two settings with the same text are the same.
pub proof fn lemma_encode_injective(a: ClassificationDataView, b: ClassificationDataView)
    requires
        encode_spec(a) == encode_spec(b),
    ensures
        a == b,
{
    lemma_decode_encode(a);
    lemma_decode_encode(b);
}

} // verus!
