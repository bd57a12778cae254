//! The one file that the site list is kept in: what is read from it and what is written to it.

use vstd::prelude::*;

use crate::media::{blank_len, count_blank, is_blank};
use crate::text::{copy_of, text_of};

verus! {

/// A JSON value of `serde_json`.
#[verifier::external_type_specification]
#[verifier::external_body]
pub struct ExJsonValue(serde_json::Value);

/// What a JSON value holds. A number is a whole one, or a floating-point one by its bits; the
/// entries of an object stand in the order of their names.
pub enum JsonText {
    Null,
    Bool(bool),
    Whole(int),
    Float(u64),
    Text(Seq<char>),
    List(Seq<JsonText>),
    Object(Seq<(Seq<char>, JsonText)>),
}

/// What a value of `serde_json` holds.
pub uninterp spec fn json_of(value: serde_json::Value) -> JsonText;

/// What `serde_json` reads in bytes: a value, or the text of its error.
pub uninterp spec fn json_read(bytes: Seq<u8>) -> Result<JsonText, Seq<char>>;

/// The bytes that `serde_json` writes for a value, with line breaks and indentation.
pub uninterp spec fn json_pretty(value: JsonText) -> Seq<u8>;

/// Lists and objects are nested in the value at most `limit` deep.
pub open spec fn nested_at_most(value: JsonText, limit: nat) -> bool
    decreases value,
{
    match value {
        JsonText::List(items) => limit > 0 && forall|i: int|
            0 <= i < items.len() ==> {
                let item = #[trigger] items[i];
                nested_at_most(item, (limit - 1) as nat)
            },
        JsonText::Object(entries) => limit > 0 && forall|i: int|
            0 <= i < entries.len() ==> {
                let entry = #[trigger] entries[i];
                nested_at_most(entry.1, (limit - 1) as nat)
            },
        _ => true,
    }
}

/// Every floating-point number in the value is read back as itself where it stands alone.
pub open spec fn floats_read_back(value: JsonText) -> bool
    decreases value,
{
    match value {
        JsonText::Float(bits) => json_read(json_pretty(value)) == Ok::<JsonText, Seq<char>>(value),
        JsonText::List(items) => forall|i: int|
            0 <= i < items.len() ==> {
                let item = #[trigger] items[i];
                floats_read_back(item)
            },
        JsonText::Object(entries) => forall|i: int|
            0 <= i < entries.len() ==> {
                let entry = #[trigger] entries[i];
                floats_read_back(entry.1)
            },
        _ => true,
    }
}

/// The name that `serde_json` marks raw JSON text with. Where the first entry of an object has it,
/// `serde_json` reads what the text of that entry writes in place of the object.
pub open spec fn raw_mark() -> Seq<char> {
    "$serde_json::private::RawValue"@
}

/// No object in the value, at any depth, has the mark of raw text as its first name.
pub open spec fn has_no_raw_mark(value: JsonText) -> bool
    decreases value,
{
    match value {
        JsonText::List(items) => forall|i: int|
            0 <= i < items.len() ==> {
                let item = #[trigger] items[i];
                has_no_raw_mark(item)
            },
        JsonText::Object(entries) => (entries.len() > 0 ==> entries[0].0 != raw_mark()) && forall|
            i: int,
        |
            0 <= i < entries.len() ==> {
                let entry = #[trigger] entries[i];
                has_no_raw_mark(entry.1)
            },
        _ => true,
    }
}

/// The value is one that is read back as it was written: it is nested less than 128 deep, its
/// floating-point numbers are read back, and no object in it looks like raw text.
pub open spec fn keeps(value: JsonText) -> bool {
    nested_at_most(value, 127) && floats_read_back(value) && has_no_raw_mark(value)
}

/// What came of reading the file.
pub enum FileRead {
    /// Its bytes.
    Bytes(Vec<u8>),
    /// There is none.
    Missing,
    /// It could not be read, and why.
    Failed(String),
}

/// What came of reading the file.
pub enum FileText {
    Bytes(Seq<u8>),
    Missing,
    Failed(Seq<char>),
}

impl View for FileRead {
    type V = FileText;

    open spec fn view(&self) -> FileText {
        match *self {
            FileRead::Bytes(b) => FileText::Bytes(b@),
            FileRead::Missing => FileText::Missing,
            FileRead::Failed(why) => FileText::Failed(why@),
        }
    }
}

/// There is nothing but blank bytes.
pub open spec fn all_blank(bytes: Seq<u8>) -> bool {
    blank_len(bytes) == bytes.len()
}

/// The object without entries.
pub open spec fn empty_object() -> JsonText {
    JsonText::Object(seq![])
}

/// What a parse came to, with the message of an answer for its error.
pub open spec fn parse_outcome(parsed: Result<JsonText, Seq<char>>) -> Result<
    JsonText,
    Seq<char>,
> {
    match parsed {
        Ok(value) => Ok(value),
        Err(why) => Err("数据文件解析失败: "@ + why),
    }
}

/// The value that the file holds: the empty object where there is no file or it is blank, and
/// a message where it cannot be read or parsed.
pub open spec fn stored(file: FileText) -> Result<JsonText, Seq<char>> {
    match file {
        FileText::Bytes(bytes) => if all_blank(bytes) {
            Ok(empty_object())
        } else {
            parse_outcome(json_read(bytes))
        },
        FileText::Missing => Ok(empty_object()),
        FileText::Failed(why) => Err("读取数据失败: "@ + why),
    }
}

/// The name of the file that is written first, for a file with that name.
pub open spec fn temp_text(file_name: Option<Seq<char>>) -> Seq<char> {
    "."@ + (match file_name {
        Some(name) => name,
        None => "sites"@,
    }) + ".tmp"@
}

/// What a parse gave, as text.
pub open spec fn parsed_text(r: Result<serde_json::Value, String>) -> Result<
    JsonText,
    Seq<char>,
> {
    match r {
        Ok(value) => Ok(json_of(value)),
        Err(why) => Err(why@),
    }
}

/// No file and a blank file are both the empty object.
pub proof fn law_blank_is_empty(bytes: Seq<u8>)
    requires
        forall|i: int| 0 <= i < bytes.len() ==> is_blank(#[trigger] bytes[i]),
    ensures
        stored(FileText::Bytes(bytes)) == stored(FileText::Missing),
{
    lemma_all_blank(bytes);
}

proof fn lemma_all_blank(bytes: Seq<u8>)
    requires
        forall|i: int| 0 <= i < bytes.len() ==> is_blank(#[trigger] bytes[i]),
    ensures
        all_blank(bytes),
    decreases bytes.len(),
{
    if bytes.len() > 0 {
        assert(is_blank(bytes[0]));
        lemma_all_blank(bytes.drop_first());
    }
}

/// What came of reading the file is told whole, and so is what a parse gave.
pub proof fn law_views_of_files(
    bytes: Vec<u8>,
    why: String,
    value: serde_json::Value,
    error: String,
)
    ensures
        FileRead::Bytes(bytes)@ == FileText::Bytes(bytes@),
        FileRead::Missing@ == FileText::Missing,
        FileRead::Failed(why)@ == FileText::Failed(why@),
        parsed_text(Ok(value)) == Ok::<JsonText, Seq<char>>(json_of(value)),
        parsed_text(Err(error)) == Err::<JsonText, Seq<char>>(error@),
{
}

/// What the file holds, where there is anything in it but blank bytes, is what `serde_json` reads in
/// all of it; its error comes with the words that say so, and so does that of a file that cannot be
/// read.
pub proof fn law_file_is_read_whole(bytes: Seq<u8>, i: int, why: Seq<char>)
    requires
        0 <= i < bytes.len(),
        !seq![0x20u8, 0x9, 0xa, 0xc, 0xd].contains(bytes[i]),
    ensures
        json_read(bytes) matches Ok(value) ==> stored(FileText::Bytes(bytes)) == Ok::<
            JsonText,
            Seq<char>,
        >(value),
        json_read(bytes) matches Err(error) ==> stored(FileText::Bytes(bytes)) == Err::<
            JsonText,
            Seq<char>,
        >("数据文件解析失败: "@ + error),
        stored(FileText::Failed(why)) == Err::<JsonText, Seq<char>>("读取数据失败: "@ + why),
        stored(FileText::Missing) == Ok::<JsonText, Seq<char>>(JsonText::Object(seq![])),
{
    crate::media::law_blank_bytes(bytes[i]);
    lemma_not_all_blank(bytes, i);
}

proof fn lemma_not_all_blank(bytes: Seq<u8>, i: int)
    requires
        0 <= i < bytes.len(),
        !is_blank(bytes[i]),
    ensures
        blank_len(bytes) <= i,
    decreases bytes.len(),
{
    if i > 0 && is_blank(bytes[0]) {
        lemma_not_all_blank(bytes.drop_first(), i - 1);
    }
}

/// The file that is written first has the name of the file between a dot and `.tmp`, or that of a
/// site list where there is no name.
pub proof fn law_temporary_name(name: Seq<char>)
    ensures
        temp_text(Some(name)) == seq!['.'] + name + seq!['.', 't', 'm', 'p'],
        temp_text(None) == seq!['.', 's', 'i', 't', 'e', 's', '.', 't', 'm', 'p'],
{
    reveal_strlit(".");
    reveal_strlit(".tmp");
    reveal_strlit("sites");
    assert("."@ == seq!['.']);
    assert(".tmp"@ == seq!['.', 't', 'm', 'p']);
    assert("sites"@ == seq!['s', 'i', 't', 'e', 's']);
    assert(temp_text(None) == seq!['.', 's', 'i', 't', 'e', 's', '.', 't', 'm', 'p']);
}

/// What is nested less than 128 deep, holds no floating-point number and has no object with the mark
/// of raw text in front is a value that is kept: so are all that hold texts, whole numbers and truth
/// values alone.
pub proof fn law_simple_values_are_kept(text: Seq<char>, n: int, b: bool)
    ensures
        keeps(JsonText::Null),
        keeps(JsonText::Bool(b)),
        keeps(JsonText::Whole(n)),
        keeps(JsonText::Text(text)),
{
}

/// A list of values that are kept one level less deep is kept, and so is an object of them whose first
/// name is not the mark of raw text.
pub proof fn law_kept_values_nest(
    items: Seq<JsonText>,
    entries: Seq<(Seq<char>, JsonText)>,
    depth: nat,
)
    requires
        depth < 127,
        forall|i: int|
            0 <= i < items.len() ==> {
                let item = #[trigger] items[i];
                nested_at_most(item, depth) && floats_read_back(item) && has_no_raw_mark(item)
            },
        forall|i: int|
            0 <= i < entries.len() ==> {
                let entry = #[trigger] entries[i];
                nested_at_most(entry.1, depth) && floats_read_back(entry.1) && has_no_raw_mark(
                    entry.1,
                )
            },
        entries.len() > 0 ==> entries[0].0 != "$serde_json::private::RawValue"@,
    ensures
        nested_at_most(JsonText::List(items), depth + 1),
        nested_at_most(JsonText::Object(entries), depth + 1),
        keeps(JsonText::List(items)),
        keeps(JsonText::Object(entries)),
{
    assert forall|i: int| 0 <= i < items.len() implies nested_at_most(#[trigger] items[i], 126) by {
        lemma_nested_more(items[i], depth, 126);
    }
    assert forall|i: int| 0 <= i < entries.len() implies nested_at_most(
        (#[trigger] entries[i]).1,
        126,
    ) by {
        lemma_nested_more(entries[i].1, depth, 126);
    }
}

proof fn lemma_nested_more(value: JsonText, limit: nat, more: nat)
    requires
        nested_at_most(value, limit),
        limit <= more,
    ensures
        nested_at_most(value, more),
    decreases value,
{
    match value {
        JsonText::List(items) => {
            assert forall|i: int| 0 <= i < items.len() implies nested_at_most(
                #[trigger] items[i],
                (more - 1) as nat,
            ) by {
                lemma_nested_more(items[i], (limit - 1) as nat, (more - 1) as nat);
            }
        },
        JsonText::Object(entries) => {
            assert forall|i: int| 0 <= i < entries.len() implies nested_at_most(
                (#[trigger] entries[i]).1,
                (more - 1) as nat,
            ) by {
                lemma_nested_more(entries[i].1, (limit - 1) as nat, (more - 1) as nat);
            }
        },
        _ => {},
    }
}

/// The file that is written first is another one than the file that it becomes.
pub proof fn law_temp_is_another_file(name: Seq<char>)
    ensures
        temp_text(Some(name)) != name,
{
    reveal_strlit(".");
    reveal_strlit(".tmp");
    assert(temp_text(Some(name)).len() == name.len() + 5);
}

/// `serde_json::from_slice` into a `Value`: the value, or the text of the error.
#[verifier::external_body]
fn parse_json(bytes: &[u8]) -> (r: Result<serde_json::Value, String>)
    ensures
        parsed_text(r) == json_read(bytes@),
{
    match serde_json::from_slice::<serde_json::Value>(bytes) {
        Ok(value) => Ok(value),
        Err(e) => Err(e.to_string()),
    }
}

/// `serde_json::to_vec_pretty` on a `Value`, which does not fail there: the text begins with a
/// byte that is not blank. It is read back as the value where that is nested at most 127 deep, no
/// object in it has the mark of raw text as its first name, and `serde_json` reads back each of its
/// floating-point numbers, which it does not promise.
#[verifier::external_body]
fn print_json(value: &serde_json::Value) -> (r: Result<Vec<u8>, String>)
    ensures
        r is Ok,
        r matches Ok(bytes) ==> {
            &&& bytes@ == json_pretty(json_of(*value))
            &&& bytes@.len() > 0
            &&& !is_blank(bytes@[0])
            &&& keeps(json_of(*value)) ==> json_read(bytes@) == Ok::<JsonText, Seq<char>>(
                json_of(*value),
            )
        },
{
    match serde_json::to_vec_pretty(value) {
        Ok(bytes) => Ok(bytes),
        Err(e) => Err(e.to_string()),
    }
}

/// `serde_json::Map::new` as a `Value`: the object without entries.
#[verifier::external_body]
fn new_object() -> (r: serde_json::Value)
    ensures
        json_of(r) == empty_object(),
{
    serde_json::Value::Object(serde_json::Map::new())
}

/// Whether the bytes are all blank.
pub fn is_blank_text(bytes: &[u8]) -> (r: bool)
    ensures
        r == all_blank(bytes@),
{
    count_blank(bytes) == bytes.len()
}

/// What is answered for what a parse gave.
pub fn settle_parse(parsed: Result<serde_json::Value, String>) -> (r: Result<
    serde_json::Value,
    String,
>)
    ensures
        parsed_text(r) == parse_outcome(parsed_text(parsed)),
{
    match parsed {
        Ok(value) => Ok(value),
        Err(why) => {
            let mut message = copy_of("数据文件解析失败: ");
            message.append(why.as_str());
            Err(message)
        },
    }
}

/// The value that the file holds, or the message of the answer with status 500.
pub fn read_json(file: FileRead) -> (r: Result<serde_json::Value, String>)
    ensures
        parsed_text(r) == stored(file@),
{
    match file {
        FileRead::Bytes(bytes) => if is_blank_text(bytes.as_slice()) {
            Ok(new_object())
        } else {
            settle_parse(parse_json(bytes.as_slice()))
        },
        FileRead::Missing => Ok(new_object()),
        FileRead::Failed(why) => {
            let mut message = copy_of("读取数据失败: ");
            message.append(why.as_str());
            Err(message)
        },
    }
}

/// What is to be written, and under which name first: the file is put in place of the old one
/// only when it is whole.
pub struct WritePlan {
    pub temp_name: String,
    pub bytes: Vec<u8>,
}

/// How a value is written to the file with that name. Once it is in place, the file holds the
/// value, for every value that `keeps` admits.
pub fn write_json_atomic(file_name: Option<&str>, value: &serde_json::Value) -> (r: Result<
    WritePlan,
    String,
>)
    ensures
        r is Ok,
        r matches Ok(plan) ==> {
            &&& plan.temp_name@ == temp_text(text_of(file_name))
            &&& plan.bytes@ == json_pretty(json_of(*value))
            &&& keeps(json_of(*value)) ==> stored(FileText::Bytes(plan.bytes@)) == Ok::<
                JsonText,
                Seq<char>,
            >(json_of(*value))
        },
{
    let bytes = match print_json(value) {
        Ok(b) => b,
        Err(why) => {
            return Err(why);
        },
    };
    let mut temp_name = copy_of(".");
    match file_name {
        Some(name) => {
            temp_name.append(name);
        },
        None => {
            temp_name.append("sites");
        },
    }
    temp_name.append(".tmp");
    assert(!all_blank(bytes@)) by {
        assert(bytes@.first() == bytes@[0]);
        assert(blank_len(bytes@) == 0);
    }
    Ok(WritePlan { temp_name, bytes })
}

} // verus!
