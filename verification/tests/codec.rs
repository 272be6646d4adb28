use classification_store::classification::{
    copy_text, ClassificationData, ItemLayout, ItemShowOnly, ItemSort,
};
use classification_store::codec::{decode, encode};
use classification_store::error::StoreError;
use classification_store::number::{push_decimal, read_decimal};
use classification_store::text::{chars_of, expect, push_quoted, read_quoted};

const DEFAULT_TEXT: &str = "{\"icon\":null,\"associateFolderPath\":null,\"associateFolderHiddenItems\":null,\"itemLayout\":\"default\",\"itemSort\":\"default\",\"itemColumnNumber\":null,\"itemIconSize\":null,\"itemShowOnly\":\"default\",\"fixed\":false,\"aggregateItemCount\":50,\"excludeSearch\":false}";

fn full() -> ClassificationData {
    ClassificationData {
        icon: Some("folder.png".to_string()),
        associate_folder_path: Some("C:\\Users\\me\\\"My Files\"".to_string()),
        associate_folder_hidden_items: Some("a\nb\tc\u{1}\u{1f}é漢😀".to_string()),
        item_layout: ItemLayout::tile,
        item_sort: ItemSort::openNumber,
        item_column_number: Some(4),
        item_icon_size: Some(-12),
        item_show_only: ItemShowOnly::folder,
        fixed: true,
        aggregate_item_count: 2147483647,
        exclude_search: true,
    }
}

#[test]
fn default_settings() {
    let d = ClassificationData::default();
    assert_eq!(d.icon, None);
    assert_eq!(d.associate_folder_path, None);
    assert_eq!(d.associate_folder_hidden_items, None);
    assert_eq!(d.item_layout, ItemLayout::default);
    assert_eq!(d.item_sort, ItemSort::default);
    assert_eq!(d.item_column_number, None);
    assert_eq!(d.item_icon_size, None);
    assert_eq!(d.item_show_only, ItemShowOnly::default);
    assert!(!d.fixed);
    assert_eq!(d.aggregate_item_count, 50);
    assert!(!d.exclude_search);
    assert_eq!(d.clone(), d);
}

#[test]
fn default_settings_as_text() {
    assert_eq!(encode(&ClassificationData::default()), DEFAULT_TEXT);
}

#[test]
fn full_settings_as_text() {
    let expected = "{\"icon\":\"folder.png\",\"associateFolderPath\":\"C:\\\\Users\\\\me\\\\\\\"My Files\\\"\",\"associateFolderHiddenItems\":\"a\\u000ab\\u0009c\\u0001\\u001fé漢😀\",\"itemLayout\":\"tile\",\"itemSort\":\"openNumber\",\"itemColumnNumber\":4,\"itemIconSize\":-12,\"itemShowOnly\":\"folder\",\"fixed\":true,\"aggregateItemCount\":2147483647,\"excludeSearch\":true}";
    assert_eq!(encode(&full()), expected);
}

#[test]
fn round_trip_default() {
    let d = ClassificationData::default();
    assert_eq!(decode(&encode(&d)), Ok(d));
    assert_eq!(decode(DEFAULT_TEXT), Ok(ClassificationData::default()));
}

#[test]
fn round_trip_full() {
    let d = full();
    assert_eq!(decode(&encode(&d)), Ok(d));
}

#[test]
fn round_trip_every_choice() {
    for layout in [ItemLayout::default, ItemLayout::tile, ItemLayout::list] {
        for sort in [ItemSort::default, ItemSort::initial, ItemSort::openNumber, ItemSort::lastOpen]
        {
            for show in [ItemShowOnly::default, ItemShowOnly::file, ItemShowOnly::folder] {
                for flag in [false, true] {
                    let d = ClassificationData {
                        icon: if flag { Some(String::new()) } else { None },
                        associate_folder_path: Some("null".to_string()),
                        associate_folder_hidden_items: None,
                        item_layout: layout,
                        item_sort: sort,
                        item_column_number: if flag { None } else { Some(0) },
                        item_icon_size: Some(i32::MIN),
                        item_show_only: show,
                        fixed: flag,
                        aggregate_item_count: -1,
                        exclude_search: !flag,
                    };
                    assert_eq!(decode(&encode(&d)), Ok(d));
                }
            }
        }
    }
}

#[test]
fn round_trip_numbers() {
    for n in [0, 1, 9, 10, 11, 99, 100, 50, -1, -10, 1000000000, i32::MAX, i32::MIN, i32::MIN + 1] {
        let mut d = ClassificationData::default();
        d.aggregate_item_count = n;
        d.item_column_number = Some(n);
        let text = encode(&d);
        assert!(text.contains(&format!("\"aggregateItemCount\":{},", n)));
        assert!(text.contains(&format!("\"itemColumnNumber\":{},", n)));
        assert_eq!(decode(&text), Ok(d));
    }
}

#[test]
fn round_trip_every_control_character() {
    let mut s = String::new();
    for code in 0u8..128 {
        s.push(code as char);
    }
    let mut d = ClassificationData::default();
    d.icon = Some(s);
    let text = encode(&d);
    assert!(text.chars().all(|c| c as u32 >= 32));
    assert_eq!(decode(&text), Ok(d));
}

#[test]
fn malformed_texts_are_refused() {
    let bad = [
        String::new(),
        "{}".to_string(),
        "null".to_string(),
        "not a payload".to_string(),
        format!("{} ", DEFAULT_TEXT),
        format!(" {}", DEFAULT_TEXT),
        format!("{}}}", DEFAULT_TEXT),
        DEFAULT_TEXT[..DEFAULT_TEXT.len() - 1].to_string(),
        DEFAULT_TEXT.replace("50", "050"),
        DEFAULT_TEXT.replace("50", "+50"),
        DEFAULT_TEXT.replace("50", "-0"),
        DEFAULT_TEXT.replace("50", ""),
        DEFAULT_TEXT.replace("50", "2147483648"),
        DEFAULT_TEXT.replace("50", "-2147483649"),
        DEFAULT_TEXT.replace("50", "99999999999"),
        DEFAULT_TEXT.replace("50", "5.0"),
        DEFAULT_TEXT.replace("50", "null"),
        DEFAULT_TEXT.replace("\"fixed\":false", "\"fixed\":False"),
        DEFAULT_TEXT.replace("\"fixed\":false", "\"fixed\":0"),
        DEFAULT_TEXT.replace("\"itemLayout\":\"default\"", "\"itemLayout\":\"grid\""),
        DEFAULT_TEXT.replace("\"itemSort\":\"default\"", "\"itemSort\":\"open_number\""),
        DEFAULT_TEXT.replace("\"itemShowOnly\":\"default\"", "\"itemShowOnly\":null"),
        DEFAULT_TEXT.replace("\"icon\":null", "\"icon\":\"open"),
        DEFAULT_TEXT.replace("\"icon\":null", "\"icon\":\"a\\nb\""),
        DEFAULT_TEXT.replace("\"icon\":null", "\"icon\":\"\\u000A\""),
        DEFAULT_TEXT.replace("\"icon\":null", "\"icon\":\"\\u0041\""),
        DEFAULT_TEXT.replace("\"icon\":null", "\"icon\":\"a\nb\""),
        DEFAULT_TEXT.replace("\"icon\":null", "\"icon\": null"),
        DEFAULT_TEXT.replace("\"icon\":null,", ""),
        DEFAULT_TEXT.replace("\"icon\"", "\"Icon\""),
    ];
    for text in bad.iter() {
        assert_eq!(decode(text), Err(StoreError::MalformedPayload), "{}", text);
    }
}

#[test]
fn fields_out_of_order_are_refused() {
    let swapped = DEFAULT_TEXT.replace(
        "\"fixed\":false,\"aggregateItemCount\":50",
        "\"aggregateItemCount\":50,\"fixed\":false",
    );
    assert_ne!(swapped, DEFAULT_TEXT);
    assert_eq!(decode(&swapped), Err(StoreError::MalformedPayload));
}

#[test]
fn quoted_text_is_written_with_escapes() {
    let mut out = String::from("x=");
    push_quoted(&mut out, "a\"b\\c\u{0}\u{1f} d");
    assert_eq!(out, "x=\"a\\\"b\\\\c\\u0000\\u001f d\"");
    let mut empty = String::new();
    push_quoted(&mut empty, "");
    assert_eq!(empty, "\"\"");
}

#[test]
fn quoted_text_is_read_back() {
    let t = chars_of("ab\"x\\\"y\\\\z\\u0007\"tail");
    assert_eq!(read_quoted(&t, 2), Some(("x\"y\\z\u{7}".to_string(), 17)));
    assert_eq!(read_quoted(&t, 0), None);
    assert_eq!(read_quoted(&t, 100), None);
    assert_eq!(read_quoted(&chars_of("\"open"), 0), None);
    assert_eq!(read_quoted(&chars_of("\"a\\"), 0), None);
    assert_eq!(read_quoted(&chars_of("\"\\q\""), 0), None);
    assert_eq!(read_quoted(&chars_of("\"\\u0020\""), 0), None);
    assert_eq!(read_quoted(&chars_of("\"\\u001G\""), 0), None);
    assert_eq!(read_quoted(&chars_of("\"\\u001F\""), 0), None);
    assert_eq!(read_quoted(&chars_of("\"\\u001f\""), 0), Some(("\u{1f}".to_string(), 8)));
    assert_eq!(read_quoted(&chars_of("\"a\nb\""), 0), None);
    assert_eq!(read_quoted(&chars_of("\"\""), 0), Some((String::new(), 2)));
}

#[test]
fn decimal_is_written() {
    let mut out = String::from("n:");
    push_decimal(&mut out, 0);
    out.push(',');
    push_decimal(&mut out, -7);
    out.push(',');
    push_decimal(&mut out, 1203);
    out.push(',');
    push_decimal(&mut out, i32::MIN);
    out.push(',');
    push_decimal(&mut out, i32::MAX);
    assert_eq!(out, "n:0,-7,1203,-2147483648,2147483647");
}

#[test]
fn decimal_is_read() {
    let t = chars_of("a-12,345x007");
    assert_eq!(read_decimal(&t, 1), Some((-12, 4)));
    assert_eq!(read_decimal(&t, 2), Some((12, 4)));
    assert_eq!(read_decimal(&t, 5), Some((345, 8)));
    assert_eq!(read_decimal(&t, 9), None);
    assert_eq!(read_decimal(&t, 10), None);
    assert_eq!(read_decimal(&t, 11), Some((7, 12)));
    assert_eq!(read_decimal(&t, 0), None);
    assert_eq!(read_decimal(&t, 4), None);
    assert_eq!(read_decimal(&t, 12), None);
    assert_eq!(read_decimal(&t, 13), None);
    assert_eq!(read_decimal(&chars_of("-"), 0), None);
    assert_eq!(read_decimal(&chars_of("2147483647"), 0), Some((i32::MAX, 10)));
    assert_eq!(read_decimal(&chars_of("2147483648"), 0), None);
    assert_eq!(read_decimal(&chars_of("-2147483648"), 0), Some((i32::MIN, 11)));
    assert_eq!(read_decimal(&chars_of("-2147483649"), 0), None);
    assert_eq!(read_decimal(&chars_of("00000000001"), 0), None);
    assert_eq!(read_decimal(&chars_of("0000000001"), 0), None);
    assert_eq!(read_decimal(&chars_of("0"), 0), Some((0, 1)));
    assert_eq!(read_decimal(&chars_of("-0"), 0), None);
    assert_eq!(read_decimal(&chars_of("00"), 0), None);
    assert_eq!(read_decimal(&chars_of("10"), 0), Some((10, 2)));
    assert_eq!(read_decimal(&chars_of("12345678901"), 0), None);
}

#[test]
fn characters_and_literals() {
    assert_eq!(chars_of("aé漢😀"), vec!['a', 'é', '漢', '😀']);
    assert!(chars_of("").is_empty());
    let t = chars_of("héllo world");
    assert_eq!(expect(&t, 0, "héllo"), Some(5));
    assert_eq!(expect(&t, 6, "world"), Some(11));
    assert_eq!(expect(&t, 6, "world!"), None);
    assert_eq!(expect(&t, 1, "héllo"), None);
    assert_eq!(expect(&t, 11, ""), Some(11));
    assert_eq!(expect(&t, 12, ""), None);
}

#[test]
fn optional_text_is_copied() {
    assert_eq!(copy_text(&None), None);
    assert_eq!(copy_text(&Some("a\"b".to_string())), Some("a\"b".to_string()));
    let d = full();
    assert_eq!(d.clone(), full());
}

#[test]
fn text_of_another_value_is_another_text() {
    let a = ClassificationData::default();
    let mut b = ClassificationData::default();
    b.icon = Some("null".to_string());
    assert_ne!(encode(&a), encode(&b));
    assert_eq!(decode(&encode(&b)).unwrap().icon, Some("null".to_string()));
    assert_eq!(decode(&encode(&a)).unwrap().icon, None);
}
