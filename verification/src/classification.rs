//! The classification record and the settings attached to it.

use vstd::prelude::*;

verus! {

/// How the items of a classification are laid out.
#[allow(non_camel_case_types)]
#[derive(Clone, Copy, Debug, PartialEq, Eq, Structural)]
pub enum ItemLayout {
    default,
    tile,
    list,
}

/// By what the items of a classification are sorted.
#[allow(non_camel_case_types)]
#[derive(Clone, Copy, Debug, PartialEq, Eq, Structural)]
pub enum ItemSort {
    default,
    initial,
    openNumber,
    lastOpen,
}

/// Which kind of item a classification shows.
#[allow(non_camel_case_types)]
#[derive(Clone, Copy, Debug, PartialEq, Eq, Structural)]
pub enum ItemShowOnly {
    default,
    file,
    folder,
}

/// The settings of one classification.
#[derive(Debug, PartialEq, Eq)]
pub struct ClassificationData {
    pub icon: Option<String>,
    pub associate_folder_path: Option<String>,
    pub associate_folder_hidden_items: Option<String>,
    pub item_layout: ItemLayout,
    pub item_sort: ItemSort,
    pub item_column_number: Option<i32>,
    pub item_icon_size: Option<i32>,
    pub item_show_only: ItemShowOnly,
    pub fixed: bool,
    pub aggregate_item_count: i32,
    pub exclude_search: bool,
}

/// The settings as a mathematical value: every text is a sequence of characters.
pub ghost struct ClassificationDataView {
    pub icon: Option<Seq<char>>,
    pub associate_folder_path: Option<Seq<char>>,
    pub associate_folder_hidden_items: Option<Seq<char>>,
    pub item_layout: ItemLayout,
    pub item_sort: ItemSort,
    pub item_column_number: Option<i32>,
    pub item_icon_size: Option<i32>,
    pub item_show_only: ItemShowOnly,
    pub fixed: bool,
    pub aggregate_item_count: i32,
    pub exclude_search: bool,
}

/// The characters of an optional text.
pub open spec fn text_of(t: Option<String>) -> Option<Seq<char>> {
    match t {
        Some(s) => Some(s@),
        None => None,
    }
}

/// A copy of an optional text.
pub fn copy_text(t: &Option<String>) -> (copy: Option<String>)
    ensures
        copy == *t,
{
    match t {
        Some(s) => Some(s.clone()),
        None => None,
    }
}

impl Clone for ClassificationData {
    fn clone(&self) -> (copy: Self)
        ensures
            copy == *self,
    {
        ClassificationData {
            icon: copy_text(&self.icon),
            associate_folder_path: copy_text(&self.associate_folder_path),
            associate_folder_hidden_items: copy_text(&self.associate_folder_hidden_items),
            item_layout: self.item_layout,
            item_sort: self.item_sort,
            item_column_number: self.item_column_number,
            item_icon_size: self.item_icon_size,
            item_show_only: self.item_show_only,
            fixed: self.fixed,
            aggregate_item_count: self.aggregate_item_count,
            exclude_search: self.exclude_search,
        }
    }
}

impl View for ClassificationData {
    type V = ClassificationDataView;

    open spec fn view(&self) -> ClassificationDataView {
        ClassificationDataView {
            icon: text_of(self.icon),
            associate_folder_path: text_of(self.associate_folder_path),
            associate_folder_hidden_items: text_of(self.associate_folder_hidden_items),
            item_layout: self.item_layout,
            item_sort: self.item_sort,
            item_column_number: self.item_column_number,
            item_icon_size: self.item_icon_size,
            item_show_only: self.item_show_only,
            fixed: self.fixed,
            aggregate_item_count: self.aggregate_item_count,
            exclude_search: self.exclude_search,
        }
    }
}

/// The settings of a classification that was given none.
pub open spec fn default_data() -> ClassificationDataView {
    ClassificationDataView {
        icon: None,
        associate_folder_path: None,
        associate_folder_hidden_items: None,
        item_layout: ItemLayout::default,
        item_sort: ItemSort::default,
        item_column_number: None,
        item_icon_size: None,
        item_show_only: ItemShowOnly::default,
        fixed: false,
        aggregate_item_count: 50,
        exclude_search: false,
    }
}

impl Default for ClassificationData {
    fn default() -> (data: Self)
        ensures
            data@ == default_data(),
    {
        ClassificationData {
            icon: None,
            associate_folder_path: None,
            associate_folder_hidden_items: None,
            item_layout: ItemLayout::default,
            item_sort: ItemSort::default,
            item_column_number: None,
            item_icon_size: None,
            item_show_only: ItemShowOnly::default,
            fixed: false,
            aggregate_item_count: 50,
            exclude_search: false,
        }
    }
}

/// One classification: a node of the hierarchy.
#[derive(Debug, PartialEq, Eq)]
pub struct Classification {
    pub id: i32,
    pub parent_id: Option<i32>,
    pub name: Option<String>,
    pub type_: i32,
    pub data: String,
    pub shortcut_key: Option<String>,
    pub global_shortcut_key: bool,
    pub order: i32,
}

/// A classification as a mathematical value.
pub ghost struct ClassificationView {
    pub id: int,
    pub parent_id: Option<int>,
    pub name: Option<Seq<char>>,
    pub type_: int,
    pub data: Seq<char>,
    pub shortcut_key: Option<Seq<char>>,
    pub global_shortcut_key: bool,
    pub order: int,
}

/// An optional identifier as an optional integer.
pub open spec fn scope_of(p: Option<i32>) -> Option<int> {
    match p {
        Some(v) => Some(v as int),
        None => None,
    }
}

impl Clone for Classification {
    fn clone(&self) -> (copy: Self)
        ensures
            copy == *self,
    {
        Classification {
            id: self.id,
            parent_id: self.parent_id,
            name: copy_text(&self.name),
            type_: self.type_,
            data: self.data.clone(),
            shortcut_key: copy_text(&self.shortcut_key),
            global_shortcut_key: self.global_shortcut_key,
            order: self.order,
        }
    }
}

impl View for Classification {
    type V = ClassificationView;

    open spec fn view(&self) -> ClassificationView {
        ClassificationView {
            id: self.id as int,
            parent_id: scope_of(self.parent_id),
            name: text_of(self.name),
            type_: self.type_ as int,
            data: self.data@,
            shortcut_key: text_of(self.shortcut_key),
            global_shortcut_key: self.global_shortcut_key,
            order: self.order as int,
        }
    }
}

/// The record that stands for no classification: identifier and rank 0, no
/// parent, no name, empty settings text.
pub open spec fn blank_record() -> ClassificationView {
    ClassificationView {
        id: 0,
        parent_id: None,
        name: None,
        type_: 0,
        data: Seq::empty(),
        shortcut_key: None,
        global_shortcut_key: false,
        order: 0,
    }
}

impl Classification {
    /// A blank record, to be filled in by the caller.
    pub fn new() -> (record: Self)
        ensures
            record@ == blank_record(),
    {
        Classification {
            id: 0,
            parent_id: None,
            name: None,
            type_: 0,
            data: String::new(),
            shortcut_key: None,
            global_shortcut_key: false,
            order: 0,
        }
    }
}

impl Default for Classification {
    fn default() -> (record: Self)
        ensures
            record@ == blank_record(),
    {
        Classification::new()
    }
}

} // verus!
