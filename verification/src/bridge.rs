//! The bridge file through which the platform's media scanner hands new
//! media to the backup service: one JSON array of media items per line.
//! Each item becomes a row of the upload queue.
use vstd::prelude::*;
use crate::json::{JsonView, json_contents, json_array_items, parse_json_array, json_get, json_as_str, json_as_i64};
use crate::text::chars_of;

verus! {

/// A row to insert (ignoring duplicates by `id`) into the upload queue.
#[derive(Clone, Debug)]
pub struct QueueRow {
    pub id: String,
    pub media_store_id: String,
    pub uri: String,
    pub path: String,
    pub mime_type: String,
    pub size: i64,
    pub date_added: i64,
    pub priority: i64,
    pub status: String,
}

/// A queue row as data.
pub struct QueueRowView {
    pub id: Seq<char>,
    pub media_store_id: Seq<char>,
    pub uri: Seq<char>,
    pub path: Seq<char>,
    pub mime_type: Seq<char>,
    pub size: i64,
    pub date_added: i64,
    pub priority: i64,
    pub status: Seq<char>,
}

impl View for QueueRow {
    type V = QueueRowView;

    open spec fn view(&self) -> QueueRowView {
        QueueRowView {
            id: self.id@,
            media_store_id: self.media_store_id@,
            uri: self.uri@,
            path: self.path@,
            mime_type: self.mime_type@,
            size: self.size,
            date_added: self.date_added,
            priority: self.priority,
            status: self.status@,
        }
    }
}

/// The string under `key` in an object item; empty when the item is not an
/// object, lacks the key, or holds something else than a string there.
pub open spec fn text_field(item: JsonView, key: Seq<char>) -> Seq<char> {
    match item {
        JsonView::Object(m) => if m.contains_key(key) {
            match m[key] {
                JsonView::Str(s) => s,
                _ => Seq::empty(),
            }
        } else {
            Seq::empty()
        },
        _ => Seq::empty(),
    }
}

/// The integer under `key` in an object item; 0 when the item is not an
/// object, lacks the key, or holds something else than an `i64` there.
pub open spec fn integer_field(item: JsonView, key: Seq<char>) -> i64 {
    match item {
        JsonView::Object(m) => if m.contains_key(key) {
            match m[key] {
                JsonView::Integer(n) => if i64::MIN <= n <= i64::MAX {
                    n as i64
                } else {
                    0
                },
                _ => 0,
            }
        } else {
            0
        },
        _ => 0,
    }
}

/// `s` starts with `prefix`.
pub open spec fn starts_with(s: Seq<char>, prefix: Seq<char>) -> bool {
    s.len() >= prefix.len() && s.subrange(0, prefix.len() as int) == prefix
}

/// Images go first (priority 1); everything else after (priority 2).
pub open spec fn priority_for(mime_type: Seq<char>) -> i64 {
    if starts_with(mime_type, "image/"@) {
        1
    } else {
        2
    }
}

/// The queue row for one bridge item: id `q-` followed by the media-store
/// id, no URI, status `Pending`, priority by MIME type; missing text fields
/// are empty and missing numbers 0.
pub open spec fn queue_row_for(item: JsonView) -> QueueRowView {
    let media_store_id = text_field(item, "media_store_id"@);
    let mime_type = text_field(item, "mime_type"@);
    QueueRowView {
        id: "q-"@ + media_store_id,
        media_store_id,
        uri: Seq::empty(),
        path: text_field(item, "path"@),
        mime_type,
        size: integer_field(item, "size"@),
        date_added: integer_field(item, "date_added"@),
        priority: priority_for(mime_type),
        status: "Pending"@,
    }
}

/// The priority of a MIME type: 1 for `image/...`, 2 otherwise.
pub fn mime_priority(mime_type: &str) -> (r: i64)
    ensures
        r == priority_for(mime_type@),
{
    let v = chars_of(mime_type);
    proof {
        reveal_strlit("image/");
    }
    if v.len() >= 6 && v[0] == 'i' && v[1] == 'm' && v[2] == 'a' && v[3] == 'g' && v[4] == 'e'
        && v[5] == '/' {
        assert(mime_type@.subrange(0, 6) =~= "image/"@);
        1
    } else {
        if v.len() >= 6 {
            let ghost head = mime_type@.subrange(0, 6);
            assert(head[0] != 'i' || head[1] != 'm' || head[2] != 'a' || head[3] != 'g' || head[4]
                != 'e' || head[5] != '/');
        }
        2
    }
}

fn text_field_of(item: &serde_json::Value, key: &str) -> (r: String)
    ensures
        r@ == text_field(json_contents(*item), key@),
{
    match json_get(item, key) {
        Some(x) => match json_as_str(x) {
            Some(s) => s.to_owned(),
            None => String::new(),
        },
        None => String::new(),
    }
}

fn integer_field_of(item: &serde_json::Value, key: &str) -> (r: i64)
    ensures
        r == integer_field(json_contents(*item), key@),
{
    match json_get(item, key) {
        Some(x) => match json_as_i64(x) {
            Some(n) => n,
            None => 0,
        },
        None => 0,
    }
}

/// The queue row for one parsed bridge item.
pub fn queue_row_from_item(item: &serde_json::Value) -> (r: QueueRow)
    ensures
        r@ == queue_row_for(json_contents(*item)),
{
    let media_store_id = text_field_of(item, "media_store_id");
    let path = text_field_of(item, "path");
    let mime_type = text_field_of(item, "mime_type");
    let size = integer_field_of(item, "size");
    let date_added = integer_field_of(item, "date_added");
    let id = String::from_str("q-").concat(media_store_id.as_str());
    let priority = mime_priority(mime_type.as_str());
    QueueRow {
        id,
        media_store_id,
        uri: String::new(),
        path,
        mime_type,
        size,
        date_added,
        priority,
        status: String::from_str("Pending"),
    }
}

/// The queue rows of one bridge line, in item order; `None` when the line
/// is not a JSON array.
pub fn queue_rows_from_line(line: &str) -> (r: Option<Vec<QueueRow>>)
    ensures
        match json_array_items(line@) {
            None => r is None,
            Some(items) => r matches Some(rows) && rows@.len() == items.len() && forall|i: int|
                0 <= i < items.len() ==> (#[trigger] rows@[i])@ == queue_row_for(items[i]),
        },
{
    let items = match parse_json_array(line) {
        Some(v) => v,
        None => return None,
    };
    let ghost parsed = json_array_items(line@)->0;
    let mut rows: Vec<QueueRow> = Vec::new();
    let n = items.len();
    for i in 0..n
        invariant
            n == items@.len(),
            n == parsed.len(),
            parsed == json_array_items(line@)->0,
            forall|k: int| 0 <= k < n ==> json_contents(#[trigger] items@[k]) == parsed[k],
            rows@.len() == i,
            forall|k: int| 0 <= k < i ==> (#[trigger] rows@[k])@ == queue_row_for(parsed[k]),
    {
        let row = queue_row_from_item(&items[i]);
        rows.push(row);
    }
    Some(rows)
}


/// What a queue row takes from an object item `m`: the size and the date
/// added are the item's own integers under `size` and `date_added` whenever
/// they fit in `i64` (0 when absent, not an integer, or out of range); the
/// path, the media-store id and the MIME type are the item's own strings
/// (empty when absent or not a string); the id is `q-` followed by the
/// media-store id; the URI is empty, the status `Pending`, and the priority
/// 1 exactly for a MIME type that starts with `image/`, else 2.
pub proof fn lemma_queue_row_copies_item_fields(m: Map<Seq<char>, JsonView>)
    ensures
        ({
            let row = queue_row_for(JsonView::Object(m));
            &&& m.contains_key("size"@) && m["size"@] is Integer && i64::MIN <= m["size"@]->Integer_0
                <= i64::MAX ==> row.size as int == m["size"@]->Integer_0
            &&& !(m.contains_key("size"@) && m["size"@] is Integer && i64::MIN
                <= m["size"@]->Integer_0 <= i64::MAX) ==> row.size == 0
            &&& m.contains_key("date_added"@) && m["date_added"@] is Integer && i64::MIN
                <= m["date_added"@]->Integer_0 <= i64::MAX ==> row.date_added as int
                == m["date_added"@]->Integer_0
            &&& !(m.contains_key("date_added"@) && m["date_added"@] is Integer && i64::MIN
                <= m["date_added"@]->Integer_0 <= i64::MAX) ==> row.date_added == 0
            &&& m.contains_key("path"@) && m["path"@] is Str ==> row.path == m["path"@]->Str_0
            &&& !(m.contains_key("path"@) && m["path"@] is Str) ==> row.path.len() == 0
            &&& m.contains_key("media_store_id"@) && m["media_store_id"@] is Str
                ==> row.media_store_id == m["media_store_id"@]->Str_0
            &&& !(m.contains_key("media_store_id"@) && m["media_store_id"@] is Str)
                ==> row.media_store_id.len() == 0
            &&& m.contains_key("mime_type"@) && m["mime_type"@] is Str ==> row.mime_type
                == m["mime_type"@]->Str_0
            &&& !(m.contains_key("mime_type"@) && m["mime_type"@] is Str) ==> row.mime_type.len()
                == 0
            &&& row.id.len() == row.media_store_id.len() + 2
            &&& row.id[0] == 'q' && row.id[1] == '-'
            &&& row.id.subrange(2, row.id.len() as int) == row.media_store_id
            &&& row.uri.len() == 0
            &&& row.status == "Pending"@
            &&& (row.priority == 1 <==> (row.mime_type.len() >= 6 && row.mime_type.subrange(0, 6)
                == "image/"@))
            &&& (row.priority == 1 || row.priority == 2)
        }),
{
    reveal_strlit("q-");
    reveal_strlit("image/");
    let row = queue_row_for(JsonView::Object(m));
    assert(row.id.subrange(2, row.id.len() as int) =~= row.media_store_id);
}

} // verus!
