use homepage::store::{is_blank_text, read_json, settle_parse, write_json_atomic, FileRead};
use serde_json::Value;

fn read(bytes: &[u8]) -> Result<Value, String> {
    read_json(FileRead::Bytes(bytes.to_vec()))
}

fn empty() -> Value {
    Value::Object(serde_json::Map::new())
}

#[test]
fn missing_file_is_the_empty_object() {
    assert_eq!(read_json(FileRead::Missing), Ok(empty()));
}

#[test]
fn blank_file_is_the_empty_object() {
    assert_eq!(read(b""), Ok(empty()));
    assert_eq!(read(b" \r\n\t\x0c"), Ok(empty()));
    assert!(is_blank_text(b" \n"));
    assert!(!is_blank_text(b" x "));
}

#[test]
fn stored_value_is_read() {
    let value = read(b" {\"pages\": [1, true, null, \"a\"]} \n").unwrap();
    let pages = value.get("pages").unwrap();
    assert_eq!(pages.get(0), Some(&Value::from(1)));
    assert_eq!(pages.get(1), Some(&Value::Bool(true)));
    assert_eq!(pages.get(2), Some(&Value::Null));
    assert_eq!(pages.get(3), Some(&Value::String("a".to_string())));
}

#[test]
fn broken_file_is_an_error() {
    let why = read(b"{\"pages\": ").unwrap_err();
    assert!(why.starts_with("数据文件解析失败: EOF while parsing"), "{}", why);
    let why = read(b"{} x").unwrap_err();
    assert!(why.starts_with("数据文件解析失败: trailing characters"), "{}", why);
    assert!(read(b"\x0b").is_err());
}

#[test]
fn file_that_cannot_be_read_is_an_error() {
    assert_eq!(
        read_json(FileRead::Failed("Permission denied".to_string())),
        Err("读取数据失败: Permission denied".to_string())
    );
}

#[test]
fn outcome_of_a_parse() {
    assert_eq!(settle_parse(Ok(Value::Null)), Ok(Value::Null));
    assert_eq!(settle_parse(Err("why".to_string())), Err("数据文件解析失败: why".to_string()));
}

#[test]
fn plan_of_a_write() {
    let mut entries = serde_json::Map::new();
    entries.insert("b".to_string(), Value::from(2));
    entries.insert("a".to_string(), Value::Array(Vec::new()));
    let plan = write_json_atomic(Some("sites.json"), &Value::Object(entries)).ok().unwrap();
    assert_eq!(plan.temp_name, ".sites.json.tmp");
    assert_eq!(plan.bytes, b"{\n  \"a\": [],\n  \"b\": 2\n}".to_vec());
}

#[test]
fn plan_of_a_write_without_a_name() {
    let plan = write_json_atomic(None, &Value::Null).ok().unwrap();
    assert_eq!(plan.temp_name, ".sites.tmp");
    assert_eq!(plan.bytes, b"null".to_vec());
}

#[test]
fn what_is_written_is_read_back() {
    let texts: [&[u8]; 6] = [
        b"{\"v\":1,\"pages\":[{\"title\":\"\\u4e3b\\u9875\",\"sites\":[]}]}",
        b"[]",
        b"\"\\u0000 \\\" \\\\ text\"",
        b"[-9223372036854775808, 18446744073709551615, 0, -1]",
        b"[0.5, -2.25, 1e3]",
        b"{}",
    ];
    for text in texts {
        let value = read(text).unwrap();
        let plan = write_json_atomic(Some("f"), &value).ok().unwrap();
        assert_eq!(read(&plan.bytes), Ok(value));
    }
}

#[test]
fn deep_values_are_read_back_to_a_limit() {
    let mut value = Value::Null;
    for _ in 0..127 {
        value = Value::Array(vec![value]);
    }
    let plan = write_json_atomic(Some("f"), &value).ok().unwrap();
    assert_eq!(read(&plan.bytes), Ok(value.clone()));
    let deeper = Value::Array(vec![value]);
    let plan = write_json_atomic(Some("f"), &deeper).ok().unwrap();
    assert!(read(&plan.bytes).is_err());
}

#[test]
fn temporary_file_is_another_one() {
    for name in ["sites.json", "", ".tmp"] {
        let plan = write_json_atomic(Some(name), &Value::Null).ok().unwrap();
        assert_ne!(plan.temp_name, name);
    }
}

#[test]
fn object_with_the_mark_of_raw_text_is_not_kept() {
    let mut entries = serde_json::Map::new();
    entries.insert("$serde_json::private::RawValue".to_string(), Value::from("1"));
    let marked = Value::Object(entries.clone());
    let plan = write_json_atomic(Some("f"), &marked).ok().unwrap();
    assert_eq!(read(&plan.bytes), Ok(Value::from(1)));
    entries.insert("!".to_string(), Value::Null);
    let value = Value::Object(entries);
    let plan = write_json_atomic(Some("f"), &value).ok().unwrap();
    assert_eq!(read(&plan.bytes), Ok(value));
}
