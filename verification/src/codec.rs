//! The settings of a classification as text.
//!
//! `encode` writes a settings value as one object in JSON notation, compact,
//! with the fields in a fixed order; `decode` reads exactly these texts.

use vstd::prelude::*;
use crate::classification::{
    ClassificationData, ClassificationDataView, ItemLayout, ItemShowOnly, ItemSort, text_of,
};
use crate::codec_laws::{lemma_decode_exact, lemma_nothing_behind_nothing};
use crate::error::StoreError;
use crate::number::{decimal, decimal_at, push_decimal, read_decimal};
use crate::text::{chars_of, expect, push_quoted, quoted, quoted_at, read_quoted, starts_with_at};

verus! {

/// What stands before the field with the number `k`, counted from 0 in the
/// order of writing, and, for `k` = 11, what closes the object.
pub open spec fn key_text(k: int) -> Seq<char> {
    if k == 0 {
        "{\"icon\":"@
    } else if k == 1 {
        ",\"associateFolderPath\":"@
    } else if k == 2 {
        ",\"associateFolderHiddenItems\":"@
    } else if k == 3 {
        ",\"itemLayout\":"@
    } else if k == 4 {
        ",\"itemSort\":"@
    } else if k == 5 {
        ",\"itemColumnNumber\":"@
    } else if k == 6 {
        ",\"itemIconSize\":"@
    } else if k == 7 {
        ",\"itemShowOnly\":"@
    } else if k == 8 {
        ",\"fixed\":"@
    } else if k == 9 {
        ",\"aggregateItemCount\":"@
    } else if k == 10 {
        ",\"excludeSearch\":"@
    } else {
        "}"@
    }
}

/// How an absent value is written.
pub open spec fn null_text() -> Seq<char> {
    "null"@
}

/// How a truth value is written.
pub open spec fn bool_text(b: bool) -> Seq<char> {
    if b {
        "true"@
    } else {
        "false"@
    }
}

/// How a layout is written.
pub open spec fn layout_text(l: ItemLayout) -> Seq<char> {
    match l {
        ItemLayout::default => "\"default\""@,
        ItemLayout::tile => "\"tile\""@,
        ItemLayout::list => "\"list\""@,
    }
}

/// How a sort is written.
pub open spec fn sort_text(s: ItemSort) -> Seq<char> {
    match s {
        ItemSort::default => "\"default\""@,
        ItemSort::initial => "\"initial\""@,
        ItemSort::openNumber => "\"openNumber\""@,
        ItemSort::lastOpen => "\"lastOpen\""@,
    }
}

/// How a filter on the kind of item is written.
pub open spec fn show_only_text(s: ItemShowOnly) -> Seq<char> {
    match s {
        ItemShowOnly::default => "\"default\""@,
        ItemShowOnly::file => "\"file\""@,
        ItemShowOnly::folder => "\"folder\""@,
    }
}

/// How an optional text is written: between quotation marks, or as an
/// absent value.
pub open spec fn opt_text(v: Option<Seq<char>>) -> Seq<char> {
    match v {
        Some(s) => quoted(s),
        None => null_text(),
    }
}

/// How an optional integer is written: in decimal notation, or as an absent
/// value.
pub open spec fn opt_int(v: Option<i32>) -> Seq<char> {
    match v {
        Some(n) => decimal(n as int),
        None => null_text(),
    }
}

/// The text of a settings value: every field behind its key, in one order.
pub open spec fn encode_spec(d: ClassificationDataView) -> Seq<char> {
    key_text(0) + opt_text(d.icon) + key_text(1) + opt_text(d.associate_folder_path) + key_text(2)
        + opt_text(d.associate_folder_hidden_items) + key_text(3) + layout_text(d.item_layout)
        + key_text(4) + sort_text(d.item_sort) + key_text(5) + opt_int(d.item_column_number)
        + key_text(6) + opt_int(d.item_icon_size) + key_text(7) + show_only_text(d.item_show_only)
        + key_text(8) + bool_text(d.fixed) + key_text(9) + decimal(d.aggregate_item_count as int)
        + key_text(10) + bool_text(d.exclude_search) + key_text(11)
}

/// The index behind the key with the number `k` where it stands at `pos`,
/// and -1 where it does not.
#[verifier::opaque]
pub open spec fn key_at(t: Seq<char>, pos: int, k: int) -> int {
    if starts_with_at(t, pos, key_text(k)) {
        pos + key_text(k).len()
    } else {
        -1
    }
}

/// The optional text that stands at `pos` and the index behind it, or -1 in
/// place of the index where none stands there.
#[verifier::opaque]
pub open spec fn opt_text_at(t: Seq<char>, pos: int) -> (Option<Seq<char>>, int) {
    if starts_with_at(t, pos, null_text()) {
        (None, pos + null_text().len())
    } else {
        match quoted_at(t, pos) {
            Some((s, end)) => (Some(s), end),
            None => (None, -1),
        }
    }
}

/// The integer that stands at `pos` and the index behind it, or -1 in place
/// of the index where none stands there.
#[verifier::opaque]
pub open spec fn int_at(t: Seq<char>, pos: int) -> (i32, int) {
    match decimal_at(t, pos) {
        Some((v, end)) => (v as i32, end),
        None => (0, -1),
    }
}

/// The optional integer that stands at `pos` and the index behind it, or -1
/// in place of the index where none stands there.
#[verifier::opaque]
pub open spec fn opt_int_at(t: Seq<char>, pos: int) -> (Option<i32>, int) {
    if starts_with_at(t, pos, null_text()) {
        (None, pos + null_text().len())
    } else {
        match decimal_at(t, pos) {
            Some((v, end)) => (Some(v as i32), end),
            None => (None, -1),
        }
    }
}

/// The truth value that stands at `pos` and the index behind it, or -1 in
/// place of the index where none stands there.
#[verifier::opaque]
pub open spec fn bool_at(t: Seq<char>, pos: int) -> (bool, int) {
    if starts_with_at(t, pos, bool_text(true)) {
        (true, pos + bool_text(true).len())
    } else if starts_with_at(t, pos, bool_text(false)) {
        (false, pos + bool_text(false).len())
    } else {
        (false, -1)
    }
}

/// The layout that stands at `pos` and the index behind it, or -1 in place
/// of the index where none stands there.
#[verifier::opaque]
pub open spec fn layout_at(t: Seq<char>, pos: int) -> (ItemLayout, int) {
    if starts_with_at(t, pos, layout_text(ItemLayout::default)) {
        (ItemLayout::default, pos + layout_text(ItemLayout::default).len())
    } else if starts_with_at(t, pos, layout_text(ItemLayout::tile)) {
        (ItemLayout::tile, pos + layout_text(ItemLayout::tile).len())
    } else if starts_with_at(t, pos, layout_text(ItemLayout::list)) {
        (ItemLayout::list, pos + layout_text(ItemLayout::list).len())
    } else {
        (ItemLayout::default, -1)
    }
}

/// The sort that stands at `pos` and the index behind it, or -1 in place of
/// the index where none stands there.
#[verifier::opaque]
pub open spec fn sort_at(t: Seq<char>, pos: int) -> (ItemSort, int) {
    if starts_with_at(t, pos, sort_text(ItemSort::default)) {
        (ItemSort::default, pos + sort_text(ItemSort::default).len())
    } else if starts_with_at(t, pos, sort_text(ItemSort::initial)) {
        (ItemSort::initial, pos + sort_text(ItemSort::initial).len())
    } else if starts_with_at(t, pos, sort_text(ItemSort::openNumber)) {
        (ItemSort::openNumber, pos + sort_text(ItemSort::openNumber).len())
    } else if starts_with_at(t, pos, sort_text(ItemSort::lastOpen)) {
        (ItemSort::lastOpen, pos + sort_text(ItemSort::lastOpen).len())
    } else {
        (ItemSort::default, -1)
    }
}

/// The filter that stands at `pos` and the index behind it, or -1 in place
/// of the index where none stands there.
#[verifier::opaque]
pub open spec fn show_only_at(t: Seq<char>, pos: int) -> (ItemShowOnly, int) {
    if starts_with_at(t, pos, show_only_text(ItemShowOnly::default)) {
        (ItemShowOnly::default, pos + show_only_text(ItemShowOnly::default).len())
    } else if starts_with_at(t, pos, show_only_text(ItemShowOnly::file)) {
        (ItemShowOnly::file, pos + show_only_text(ItemShowOnly::file).len())
    } else if starts_with_at(t, pos, show_only_text(ItemShowOnly::folder)) {
        (ItemShowOnly::folder, pos + show_only_text(ItemShowOnly::folder).len())
    } else {
        (ItemShowOnly::default, -1)
    }
}

/// The settings value that a text holds, read field by field in the order
/// of writing; nothing where a key or a value is not in its place or the
/// text goes on behind the object.
pub open spec fn decode_spec(t: Seq<char>) -> Option<ClassificationDataView> {
    let pos0 = key_at(t, 0, 0);
    let icon = opt_text_at(t, pos0);
    let pos1 = key_at(t, icon.1, 1);
    let path = opt_text_at(t, pos1);
    let pos2 = key_at(t, path.1, 2);
    let hidden = opt_text_at(t, pos2);
    let pos3 = key_at(t, hidden.1, 3);
    let layout = layout_at(t, pos3);
    let pos4 = key_at(t, layout.1, 4);
    let sort = sort_at(t, pos4);
    let pos5 = key_at(t, sort.1, 5);
    let column = opt_int_at(t, pos5);
    let pos6 = key_at(t, column.1, 6);
    let size = opt_int_at(t, pos6);
    let pos7 = key_at(t, size.1, 7);
    let show = show_only_at(t, pos7);
    let pos8 = key_at(t, show.1, 8);
    let fixed = bool_at(t, pos8);
    let pos9 = key_at(t, fixed.1, 9);
    let count = int_at(t, pos9);
    let pos10 = key_at(t, count.1, 10);
    let exclude = bool_at(t, pos10);
    let pos11 = key_at(t, exclude.1, 11);
    if pos11 == t.len() {
        Some(
            ClassificationDataView {
                icon: icon.0,
                associate_folder_path: path.0,
                associate_folder_hidden_items: hidden.0,
                item_layout: layout.0,
                item_sort: sort.0,
                item_column_number: column.0,
                item_icon_size: size.0,
                item_show_only: show.0,
                fixed: fixed.0,
                aggregate_item_count: count.0,
                exclude_search: exclude.0,
            },
        )
    } else {
        None
    }
}

/// What stands before the field with the number `k`.
fn key(k: u8) -> (s: &'static str)
    ensures
        s@ == key_text(k as int),
{
    match k {
        0 => "{\"icon\":",
        1 => ",\"associateFolderPath\":",
        2 => ",\"associateFolderHiddenItems\":",
        3 => ",\"itemLayout\":",
        4 => ",\"itemSort\":",
        5 => ",\"itemColumnNumber\":",
        6 => ",\"itemIconSize\":",
        7 => ",\"itemShowOnly\":",
        8 => ",\"fixed\":",
        9 => ",\"aggregateItemCount\":",
        10 => ",\"excludeSearch\":",
        _ => "}",
    }
}

/// How a layout is written.
fn layout_name(l: ItemLayout) -> (s: &'static str)
    ensures
        s@ == layout_text(l),
{
    match l {
        ItemLayout::default => "\"default\"",
        ItemLayout::tile => "\"tile\"",
        ItemLayout::list => "\"list\"",
    }
}

/// How a sort is written.
fn sort_name(v: ItemSort) -> (s: &'static str)
    ensures
        s@ == sort_text(v),
{
    match v {
        ItemSort::default => "\"default\"",
        ItemSort::initial => "\"initial\"",
        ItemSort::openNumber => "\"openNumber\"",
        ItemSort::lastOpen => "\"lastOpen\"",
    }
}

/// How a filter on the kind of item is written.
fn show_only_name(v: ItemShowOnly) -> (s: &'static str)
    ensures
        s@ == show_only_text(v),
{
    match v {
        ItemShowOnly::default => "\"default\"",
        ItemShowOnly::file => "\"file\"",
        ItemShowOnly::folder => "\"folder\"",
    }
}

/// How a truth value is written.
fn bool_name(b: bool) -> (s: &'static str)
    ensures
        s@ == bool_text(b),
{
    if b {
        "true"
    } else {
        "false"
    }
}

/// Appends an optional text to `out` as it is written.
fn push_opt_text(out: &mut String, v: &Option<String>)
    ensures
        final(out)@ == old(out)@ + opt_text(text_of(*v)),
{
    match v {
        Some(s) => push_quoted(out, s.as_str()),
        None => out.append("null"),
    }
}

/// Appends an optional integer to `out` as it is written.
fn push_opt_int(out: &mut String, v: Option<i32>)
    ensures
        final(out)@ == old(out)@ + opt_int(v),
{
    match v {
        Some(n) => push_decimal(out, n),
        None => out.append("null"),
    }
}

/// The text of the settings `data`.
pub fn encode(data: &ClassificationData) -> (text: String)
    ensures
        text@ == encode_spec(data@),
{
    let mut out = String::new();
    out.append(key(0));
    assert(out@ =~= key_text(0));
    push_opt_text(&mut out, &data.icon);
    out.append(key(1));
    push_opt_text(&mut out, &data.associate_folder_path);
    out.append(key(2));
    push_opt_text(&mut out, &data.associate_folder_hidden_items);
    out.append(key(3));
    out.append(layout_name(data.item_layout));
    out.append(key(4));
    out.append(sort_name(data.item_sort));
    out.append(key(5));
    push_opt_int(&mut out, data.item_column_number);
    out.append(key(6));
    push_opt_int(&mut out, data.item_icon_size);
    out.append(key(7));
    out.append(show_only_name(data.item_show_only));
    out.append(key(8));
    out.append(bool_name(data.fixed));
    out.append(key(9));
    push_decimal(&mut out, data.aggregate_item_count);
    out.append(key(10));
    out.append(bool_name(data.exclude_search));
    out.append(key(11));
    out
}

/// Reads the key with the number `k` at `pos`, as `key_at` gives it.
fn read_key(t: &Vec<char>, pos: usize, k: u8) -> (end: Option<usize>)
    ensures
        match end {
            Some(e) => key_at(t@, pos as int, k as int) == e,
            None => key_at(t@, pos as int, k as int) == -1,
        },
{
    reveal(key_at);
    expect(t, pos, key(k))
}

/// Reads the optional text at `pos`, as `opt_text_at` gives it.
fn read_opt_text(t: &Vec<char>, pos: usize) -> (read: Option<(Option<String>, usize)>)
    ensures
        match read {
            Some((v, end)) => opt_text_at(t@, pos as int) == (text_of(v), end as int),
            None => opt_text_at(t@, pos as int).1 == -1,
        },
{
    reveal(opt_text_at);
    match expect(t, pos, "null") {
        Some(end) => Some((None, end)),
        None => match read_quoted(t, pos) {
            Some((s, end)) => Some((Some(s), end)),
            None => None,
        },
    }
}

/// Reads the integer at `pos`, as `int_at` gives it.
fn read_int(t: &Vec<char>, pos: usize) -> (read: Option<(i32, usize)>)
    ensures
        match read {
            Some((v, end)) => int_at(t@, pos as int) == (v, end as int),
            None => int_at(t@, pos as int).1 == -1,
        },
{
    reveal(int_at);
    read_decimal(t, pos)
}

/// Reads the optional integer at `pos`, as `opt_int_at` gives it.
fn read_opt_int(t: &Vec<char>, pos: usize) -> (read: Option<(Option<i32>, usize)>)
    ensures
        match read {
            Some((v, end)) => opt_int_at(t@, pos as int) == (v, end as int),
            None => opt_int_at(t@, pos as int).1 == -1,
        },
{
    reveal(opt_int_at);
    match expect(t, pos, "null") {
        Some(end) => Some((None, end)),
        None => match read_decimal(t, pos) {
            Some((v, end)) => Some((Some(v), end)),
            None => None,
        },
    }
}

/// Reads the truth value at `pos`, as `bool_at` gives it.
fn read_bool(t: &Vec<char>, pos: usize) -> (read: Option<(bool, usize)>)
    ensures
        match read {
            Some((v, end)) => bool_at(t@, pos as int) == (v, end as int),
            None => bool_at(t@, pos as int).1 == -1,
        },
{
    reveal(bool_at);
    match expect(t, pos, bool_name(true)) {
        Some(end) => Some((true, end)),
        None => match expect(t, pos, bool_name(false)) {
            Some(end) => Some((false, end)),
            None => None,
        },
    }
}

/// Reads the layout at `pos`, as `layout_at` gives it.
fn read_layout(t: &Vec<char>, pos: usize) -> (read: Option<(ItemLayout, usize)>)
    ensures
        match read {
            Some((v, end)) => layout_at(t@, pos as int) == (v, end as int),
            None => layout_at(t@, pos as int).1 == -1,
        },
{
    reveal(layout_at);
    match expect(t, pos, layout_name(ItemLayout::default)) {
        Some(end) => Some((ItemLayout::default, end)),
        None => match expect(t, pos, layout_name(ItemLayout::tile)) {
            Some(end) => Some((ItemLayout::tile, end)),
            None => match expect(t, pos, layout_name(ItemLayout::list)) {
                Some(end) => Some((ItemLayout::list, end)),
                None => None,
            },
        },
    }
}

/// Reads the sort at `pos`, as `sort_at` gives it.
fn read_sort(t: &Vec<char>, pos: usize) -> (read: Option<(ItemSort, usize)>)
    ensures
        match read {
            Some((v, end)) => sort_at(t@, pos as int) == (v, end as int),
            None => sort_at(t@, pos as int).1 == -1,
        },
{
    reveal(sort_at);
    match expect(t, pos, sort_name(ItemSort::default)) {
        Some(end) => Some((ItemSort::default, end)),
        None => match expect(t, pos, sort_name(ItemSort::initial)) {
            Some(end) => Some((ItemSort::initial, end)),
            None => match expect(t, pos, sort_name(ItemSort::openNumber)) {
                Some(end) => Some((ItemSort::openNumber, end)),
                None => match expect(t, pos, sort_name(ItemSort::lastOpen)) {
                    Some(end) => Some((ItemSort::lastOpen, end)),
                    None => None,
                },
            },
        },
    }
}

/// Reads the filter at `pos`, as `show_only_at` gives it.
fn read_show_only(t: &Vec<char>, pos: usize) -> (read: Option<(ItemShowOnly, usize)>)
    ensures
        match read {
            Some((v, end)) => show_only_at(t@, pos as int) == (v, end as int),
            None => show_only_at(t@, pos as int).1 == -1,
        },
{
    reveal(show_only_at);
    match expect(t, pos, show_only_name(ItemShowOnly::default)) {
        Some(end) => Some((ItemShowOnly::default, end)),
        None => match expect(t, pos, show_only_name(ItemShowOnly::file)) {
            Some(end) => Some((ItemShowOnly::file, end)),
            None => match expect(t, pos, show_only_name(ItemShowOnly::folder)) {
                Some(end) => Some((ItemShowOnly::folder, end)),
                None => None,
            },
        },
    }
}

/// Reads a settings value from the characters of a text, as `decode_spec`
/// gives it.
fn parse(t: &Vec<char>) -> (read: Option<ClassificationData>)
    ensures
        match read {
            Some(data) => decode_spec(t@) == Some(data@),
            None => decode_spec(t@) is None,
        },
{
    proof {
        lemma_nothing_behind_nothing(t@);
    }
    let pos0 = read_key(t, 0, 0)?;
    let (icon, e0) = read_opt_text(t, pos0)?;
    let pos1 = read_key(t, e0, 1)?;
    let (path, e1) = read_opt_text(t, pos1)?;
    let pos2 = read_key(t, e1, 2)?;
    let (hidden, e2) = read_opt_text(t, pos2)?;
    let pos3 = read_key(t, e2, 3)?;
    let (layout, e3) = read_layout(t, pos3)?;
    let pos4 = read_key(t, e3, 4)?;
    let (sort, e4) = read_sort(t, pos4)?;
    let pos5 = read_key(t, e4, 5)?;
    let (column, e5) = read_opt_int(t, pos5)?;
    let pos6 = read_key(t, e5, 6)?;
    let (size, e6) = read_opt_int(t, pos6)?;
    let pos7 = read_key(t, e6, 7)?;
    let (show, e7) = read_show_only(t, pos7)?;
    let pos8 = read_key(t, e7, 8)?;
    let (fixed, e8) = read_bool(t, pos8)?;
    let pos9 = read_key(t, e8, 9)?;
    let (count, e9) = read_int(t, pos9)?;
    let pos10 = read_key(t, e9, 10)?;
    let (exclude, e10) = read_bool(t, pos10)?;
    let pos11 = read_key(t, e10, 11)?;
    if pos11 != t.len() {
        return None;
    }
    Some(
        ClassificationData {
            icon,
            associate_folder_path: path,
            associate_folder_hidden_items: hidden,
            item_layout: layout,
            item_sort: sort,
            item_column_number: column,
            item_icon_size: size,
            item_show_only: show,
            fixed,
            aggregate_item_count: count,
            exclude_search: exclude,
        },
    )
}

/// The settings that `text` stands for. A text is read only where `encode`
/// writes it for some settings value: every other text is refused as
/// `MalformedPayload`.
pub fn decode(text: &str) -> (result: Result<ClassificationData, StoreError>)
    ensures
        result is Ok ==> encode_spec(result->Ok_0@) == text@,
        result is Err ==> result->Err_0 == StoreError::MalformedPayload,
        forall|d: ClassificationDataView| #[trigger]
            encode_spec(d) == text@ ==> result is Ok && result->Ok_0@ == d,
        match decode_spec(text@) {
            Some(d) => result is Ok && result->Ok_0@ == d,
            None => result is Err,
        },
{
    let t = chars_of(text);
    proof {
        assert forall|d: ClassificationDataView| #[trigger]
            encode_spec(d) == text@ implies decode_spec(t@) == Some(d) by {
            lemma_decode_exact(t@, d);
        }
    }
    match parse(&t) {
        Some(data) => {
            proof {
                lemma_decode_exact(t@, data@);
            }
            Ok(data)
        },
        None => Err(StoreError::MalformedPayload),
    }
}

} // verus!
