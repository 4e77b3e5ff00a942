//! The record of media already uploaded: which values a new record binds
//! to the insert statement, and which lookups decide whether a medium was
//! uploaded before.
use vstd::prelude::*;

verus! {

/// A medium that has been uploaded.
#[derive(Clone, Debug)]
pub struct UploadedMedia {
    pub id: String,
    pub media_store_id: Option<String>,
    pub uri: Option<String>,
    pub path: Option<String>,
    pub size: Option<i64>,
    pub date_taken: Option<i64>,
    pub sha256: Option<String>,
    pub telegram_message_id: Option<i64>,
    pub upload_time: i64,
}

/// A value bound to a statement parameter.
#[derive(Clone, Debug)]
pub enum SqlValue {
    Text(String),
    Integer(i64),
}

/// A value as data.
pub enum SqlValueView {
    Text(Seq<char>),
    Integer(i64),
}

impl View for SqlValue {
    type V = SqlValueView;

    open spec fn view(&self) -> SqlValueView {
        match self {
            SqlValue::Text(s) => SqlValueView::Text(s@),
            SqlValue::Integer(n) => SqlValueView::Integer(*n),
        }
    }
}

/// A value bound to the statement parameter at `index` (counted from 1).
#[derive(Clone, Debug)]
pub struct SqlBinding {
    pub index: usize,
    pub value: SqlValue,
}

impl View for SqlBinding {
    type V = (nat, SqlValueView);

    open spec fn view(&self) -> (nat, SqlValueView) {
        (self.index as nat, self.value@)
    }
}

pub open spec fn text_binding(index: nat, v: Option<String>) -> Seq<(nat, SqlValueView)> {
    match v {
        Some(s) => seq![(index, SqlValueView::Text(s@))],
        None => Seq::empty(),
    }
}

pub open spec fn integer_binding(index: nat, v: Option<i64>) -> Seq<(nat, SqlValueView)> {
    match v {
        Some(n) => seq![(index, SqlValueView::Integer(n))],
        None => Seq::empty(),
    }
}

/// The bindings of the insert of `m`, whose parameters are, in order, id,
/// media-store id, URI, path, size, date taken, SHA-256, Telegram message id
/// and upload time: the id and the upload time always, each optional field
/// only when present (an unbound parameter stays NULL).
pub open spec fn uploaded_media_bindings_spec(m: UploadedMedia) -> Seq<(nat, SqlValueView)> {
    seq![(1nat, SqlValueView::Text(m.id@))] + text_binding(2, m.media_store_id) + text_binding(
        3,
        m.uri,
    ) + text_binding(4, m.path) + integer_binding(5, m.size) + integer_binding(6, m.date_taken)
        + text_binding(7, m.sha256) + integer_binding(8, m.telegram_message_id) + seq![
        (9nat, SqlValueView::Integer(m.upload_time)),
    ]
}

fn push_text(out: &mut Vec<SqlBinding>, index: usize, v: Option<String>)
    ensures
        final(out)@.map_values(|b: SqlBinding| b@) == old(out)@.map_values(|b: SqlBinding| b@)
            + text_binding(index as nat, v),
{
    let ghost before = out@;
    match v {
        Some(s) => {
            out.push(SqlBinding { index, value: SqlValue::Text(s) });
        },
        None => {},
    }
    assert(out@.map_values(|b: SqlBinding| b@) =~= before.map_values(|b: SqlBinding| b@)
        + text_binding(index as nat, v));
}

fn push_integer(out: &mut Vec<SqlBinding>, index: usize, v: Option<i64>)
    ensures
        final(out)@.map_values(|b: SqlBinding| b@) == old(out)@.map_values(|b: SqlBinding| b@)
            + integer_binding(index as nat, v),
{
    let ghost before = out@;
    match v {
        Some(n) => {
            out.push(SqlBinding { index, value: SqlValue::Integer(n) });
        },
        None => {},
    }
    assert(out@.map_values(|b: SqlBinding| b@) =~= before.map_values(|b: SqlBinding| b@)
        + integer_binding(index as nat, v));
}

/// The values to bind when recording that `media` was uploaded.
pub fn uploaded_media_bindings(media: UploadedMedia) -> (r: Vec<SqlBinding>)
    ensures
        r@.map_values(|b: SqlBinding| b@) == uploaded_media_bindings_spec(media),
{
    let ghost m = media;
    let mut out: Vec<SqlBinding> = Vec::new();
    out.push(SqlBinding { index: 1, value: SqlValue::Text(media.id) });
    assert(out@.map_values(|b: SqlBinding| b@) =~= seq![(1nat, SqlValueView::Text(m.id@))]);
    push_text(&mut out, 2, media.media_store_id);
    push_text(&mut out, 3, media.uri);
    push_text(&mut out, 4, media.path);
    push_integer(&mut out, 5, media.size);
    push_integer(&mut out, 6, media.date_taken);
    push_text(&mut out, 7, media.sha256);
    push_integer(&mut out, 8, media.telegram_message_id);
    let ghost before = out@;
    out.push(SqlBinding { index: 9, value: SqlValue::Integer(media.upload_time) });
    assert(out@.map_values(|b: SqlBinding| b@) =~= before.map_values(|b: SqlBinding| b@) + seq![
        (9nat, SqlValueView::Integer(m.upload_time)),
    ]);
    out
}

/// The column a lookup compares against.
#[derive(Clone, Copy, Debug, PartialEq, Eq, Structural)]
pub enum LookupColumn {
    MediaStoreId,
    Sha256,
}

/// One lookup in the uploaded-media table: is there a row whose `column`
/// equals `value`?
#[derive(Clone, Debug)]
pub struct MediaLookup {
    pub column: LookupColumn,
    pub value: String,
}

impl View for MediaLookup {
    type V = (LookupColumn, Seq<char>);

    open spec fn view(&self) -> (LookupColumn, Seq<char>) {
        (self.column, self.value@)
    }
}

/// The lookups that decide whether a medium was uploaded, in the order they
/// are tried: by media-store id, then by SHA-256, each only when known.  The
/// medium counts as uploaded as soon as one of them finds a row.
pub open spec fn uploaded_lookups_spec(media_store_id: Option<String>, sha256: Option<String>) -> Seq<
    (LookupColumn, Seq<char>),
> {
    (match media_store_id {
        Some(s) => seq![(LookupColumn::MediaStoreId, s@)],
        None => Seq::empty(),
    }) + (match sha256 {
        Some(h) => seq![(LookupColumn::Sha256, h@)],
        None => Seq::empty(),
    })
}

/// The lookups to run, in order, to decide whether a medium was uploaded.
pub fn uploaded_media_lookups(media_store_id: &Option<String>, sha256: &Option<String>) -> (r: Vec<
    MediaLookup,
>)
    ensures
        r@.map_values(|l: MediaLookup| l@) == uploaded_lookups_spec(*media_store_id, *sha256),
{
    let mut out: Vec<MediaLookup> = Vec::new();
    if let Some(s) = media_store_id {
        out.push(MediaLookup { column: LookupColumn::MediaStoreId, value: s.clone() });
    }
    if let Some(h) = sha256 {
        out.push(MediaLookup { column: LookupColumn::Sha256, value: h.clone() });
    }
    assert(out@.map_values(|l: MediaLookup| l@) =~= uploaded_lookups_spec(*media_store_id, *sha256));
    out
}


/// Whether a medium counts as uploaded, from whether each lookup run so far
/// (in order) found a row: as soon as one of them did.
pub fn uploaded_from_hits(hits: &Vec<bool>) -> (r: bool)
    ensures
        r == exists|i: int| 0 <= i < hits@.len() && hits@[i],
{
    let n = hits.len();
    for i in 0..n
        invariant
            n == hits@.len(),
            forall|j: int| 0 <= j < i ==> !hits@[j],
    {
        if hits[i] {
            return true;
        }
    }
    false
}


/// Parameter `k` is bound to `v` somewhere in `l`.
pub open spec fn binds(l: Seq<(nat, SqlValueView)>, k: nat, v: SqlValueView) -> bool {
    exists|i: int| 0 <= i < l.len() && l[i] == (k, v)
}

/// Parameter `k` is bound to something in `l`.
pub open spec fn binds_parameter(l: Seq<(nat, SqlValueView)>, k: nat) -> bool {
    exists|i: int| 0 <= i < l.len() && l[i].0 == k
}

/// Each parameter is bound at most once, in increasing order of parameter,
/// and only parameters `lo` to `hi` are bound.
pub open spec fn increasing_within(l: Seq<(nat, SqlValueView)>, lo: nat, hi: nat) -> bool {
    &&& forall|i: int, j: int| 0 <= i < j < l.len() ==> l[i].0 < l[j].0
    &&& forall|i: int| #![trigger l[i]] 0 <= i < l.len() ==> lo <= l[i].0 && l[i].0 <= hi
}

/// An optional text column `k` is bound to the field's own value when the
/// field is present, and left unbound when it is absent.
pub open spec fn text_column(l: Seq<(nat, SqlValueView)>, k: nat, f: Option<String>) -> bool {
    match f {
        Some(x) => binds(l, k, SqlValueView::Text(x@)),
        None => !binds_parameter(l, k),
    }
}

/// An optional integer column `k` is bound to the field's own value when the
/// field is present, and left unbound when it is absent.
pub open spec fn integer_column(l: Seq<(nat, SqlValueView)>, k: nat, f: Option<i64>) -> bool {
    match f {
        Some(x) => binds(l, k, SqlValueView::Integer(x)),
        None => !binds_parameter(l, k),
    }
}

proof fn lemma_concat_binds(a: Seq<(nat, SqlValueView)>, c: Seq<(nat, SqlValueView)>)
    ensures
        forall|k: nat, v: SqlValueView| #[trigger]
            binds(a + c, k, v) <==> binds(a, k, v) || binds(c, k, v),
        forall|k: nat| #[trigger]
            binds_parameter(a + c, k) <==> binds_parameter(a, k) || binds_parameter(c, k),
{
    let l = a + c;
    assert forall|k: nat, v: SqlValueView| #[trigger]
        binds(l, k, v) <==> binds(a, k, v) || binds(c, k, v) by {
        if binds(l, k, v) {
            let i = choose|i: int| 0 <= i < l.len() && l[i] == (k, v);
            if i < a.len() {
                assert(a[i] == l[i]);
            } else {
                assert(c[i - a.len()] == l[i]);
            }
        }
        if binds(a, k, v) {
            let i = choose|i: int| 0 <= i < a.len() && a[i] == (k, v);
            assert(l[i] == a[i]);
        }
        if binds(c, k, v) {
            let j = choose|j: int| 0 <= j < c.len() && c[j] == (k, v);
            assert(l[j + a.len()] == c[j]);
        }
    }
    assert forall|k: nat| #[trigger]
        binds_parameter(l, k) <==> binds_parameter(a, k) || binds_parameter(c, k) by {
        if binds_parameter(l, k) {
            let i = choose|i: int| 0 <= i < l.len() && l[i].0 == k;
            if i < a.len() {
                assert(a[i] == l[i]);
            } else {
                assert(c[i - a.len()] == l[i]);
            }
        }
        if binds_parameter(a, k) {
            let i = choose|i: int| 0 <= i < a.len() && a[i].0 == k;
            assert(l[i] == a[i]);
        }
        if binds_parameter(c, k) {
            let j = choose|j: int| 0 <= j < c.len() && c[j].0 == k;
            assert(l[j + a.len()] == c[j]);
        }
    }
}

proof fn lemma_concat_increasing(
    a: Seq<(nat, SqlValueView)>,
    c: Seq<(nat, SqlValueView)>,
    lo: nat,
    mid: nat,
    hi: nat,
)
    requires
        increasing_within(a, lo, mid),
        increasing_within(c, mid + 1, hi),
        lo <= mid,
        mid + 1 <= hi,
    ensures
        increasing_within(a + c, lo, hi),
{
    let l = a + c;
    assert forall|i: int, j: int| 0 <= i < j < l.len() implies l[i].0 < l[j].0 by {
        if j < a.len() {
            assert(l[i] == a[i] && l[j] == a[j]);
        } else if i < a.len() {
            assert(l[i] == a[i] && l[j] == c[j - a.len()]);
            assert(a[i].0 <= mid && mid + 1 <= c[j - a.len()].0);
        } else {
            assert(l[i] == c[i - a.len()] && l[j] == c[j - a.len()]);
        }
    }
    assert forall|i: int| #![trigger l[i]] 0 <= i < l.len() implies lo <= l[i].0 && l[i].0 <= hi by {
        if i < a.len() {
            assert(l[i] == a[i]);
            assert(lo <= a[i].0 && a[i].0 <= mid);
        } else {
            assert(l[i] == c[i - a.len()]);
            assert(mid + 1 <= c[i - a.len()].0 && c[i - a.len()].0 <= hi);
        }
    }
}

proof fn lemma_text_piece(k: nat, f: Option<String>)
    requires
        k >= 1,
    ensures
        increasing_within(text_binding(k, f), k, k),
        forall|k2: nat, v: SqlValueView| #[trigger]
            binds(text_binding(k, f), k2, v) <==> (f is Some && k2 == k && v == SqlValueView::Text(
                f->0@,
            )),
        forall|k2: nat| #[trigger]
            binds_parameter(text_binding(k, f), k2) <==> (f is Some && k2 == k),
{
    let l = text_binding(k, f);
    if f is Some {
        assert(l[0] == (k, SqlValueView::Text(f->0@)));
    }
}

proof fn lemma_integer_piece(k: nat, f: Option<i64>)
    requires
        k >= 1,
    ensures
        increasing_within(integer_binding(k, f), k, k),
        forall|k2: nat, v: SqlValueView| #[trigger]
            binds(integer_binding(k, f), k2, v) <==> (f is Some && k2 == k && v
                == SqlValueView::Integer(f->0)),
        forall|k2: nat| #[trigger]
            binds_parameter(integer_binding(k, f), k2) <==> (f is Some && k2 == k),
{
    let l = integer_binding(k, f);
    if f is Some {
        assert(l[0] == (k, SqlValueView::Integer(f->0)));
    }
}

proof fn lemma_single_piece(k: nat, v: SqlValueView)
    ensures
        increasing_within(seq![(k, v)], k, k),
        forall|k2: nat, v2: SqlValueView| #[trigger]
            binds(seq![(k, v)], k2, v2) <==> (k2 == k && v2 == v),
        forall|k2: nat| #[trigger] binds_parameter(seq![(k, v)], k2) <==> k2 == k,
{
    let l = seq![(k, v)];
    assert(l[0] == (k, v));
}

/// Recording an upload binds the id to parameter 1 and the upload time to
/// parameter 9, and binds each optional column (media-store id 2, URI 3,
/// path 4, size 5, date taken 6, SHA-256 7, message id 8) to its own field's
/// value exactly when that field is present, whatever the other fields are;
/// no parameter is bound twice and none outside 1 to 9.
pub proof fn lemma_each_column_binds_its_own_field(m: UploadedMedia)
    ensures
        binds(uploaded_media_bindings_spec(m), 1, SqlValueView::Text(m.id@)),
        text_column(uploaded_media_bindings_spec(m), 2, m.media_store_id),
        text_column(uploaded_media_bindings_spec(m), 3, m.uri),
        text_column(uploaded_media_bindings_spec(m), 4, m.path),
        integer_column(uploaded_media_bindings_spec(m), 5, m.size),
        integer_column(uploaded_media_bindings_spec(m), 6, m.date_taken),
        text_column(uploaded_media_bindings_spec(m), 7, m.sha256),
        integer_column(uploaded_media_bindings_spec(m), 8, m.telegram_message_id),
        binds(uploaded_media_bindings_spec(m), 9, SqlValueView::Integer(m.upload_time)),
        increasing_within(uploaded_media_bindings_spec(m), 1, 9),
{
    let p1 = seq![(1nat, SqlValueView::Text(m.id@))];
    let p2 = text_binding(2, m.media_store_id);
    let p3 = text_binding(3, m.uri);
    let p4 = text_binding(4, m.path);
    let p5 = integer_binding(5, m.size);
    let p6 = integer_binding(6, m.date_taken);
    let p7 = text_binding(7, m.sha256);
    let p8 = integer_binding(8, m.telegram_message_id);
    let p9 = seq![(9nat, SqlValueView::Integer(m.upload_time))];
    lemma_single_piece(1, SqlValueView::Text(m.id@));
    lemma_text_piece(2, m.media_store_id);
    lemma_text_piece(3, m.uri);
    lemma_text_piece(4, m.path);
    lemma_integer_piece(5, m.size);
    lemma_integer_piece(6, m.date_taken);
    lemma_text_piece(7, m.sha256);
    lemma_integer_piece(8, m.telegram_message_id);
    lemma_single_piece(9, SqlValueView::Integer(m.upload_time));
    let a2 = p1 + p2;
    let a3 = a2 + p3;
    let a4 = a3 + p4;
    let a5 = a4 + p5;
    let a6 = a5 + p6;
    let a7 = a6 + p7;
    let a8 = a7 + p8;
    let a9 = a8 + p9;
    assert(a9 == uploaded_media_bindings_spec(m));
    lemma_concat_binds(p1, p2);
    lemma_concat_binds(a2, p3);
    lemma_concat_binds(a3, p4);
    lemma_concat_binds(a4, p5);
    lemma_concat_binds(a5, p6);
    lemma_concat_binds(a6, p7);
    lemma_concat_binds(a7, p8);
    lemma_concat_binds(a8, p9);
    lemma_concat_increasing(p1, p2, 1, 1, 2);
    lemma_concat_increasing(a2, p3, 1, 2, 3);
    lemma_concat_increasing(a3, p4, 1, 3, 4);
    lemma_concat_increasing(a4, p5, 1, 4, 5);
    lemma_concat_increasing(a5, p6, 1, 5, 6);
    lemma_concat_increasing(a6, p7, 1, 6, 7);
    lemma_concat_increasing(a7, p8, 1, 7, 8);
    lemma_concat_increasing(a8, p9, 1, 8, 9);
}

/// The lookups use exactly the keys that are known: the media-store id,
/// when known, is looked up first, whatever the hash is; the SHA-256 is
/// looked up exactly when known; nothing else is looked up.
pub proof fn lemma_lookups_use_each_known_key(media_store_id: Option<String>, sha256: Option<String>)
    ensures
        media_store_id is Some ==> uploaded_lookups_spec(media_store_id, sha256).len() >= 1
            && uploaded_lookups_spec(media_store_id, sha256)[0] == (
            LookupColumn::MediaStoreId,
            media_store_id->0@,
        ),
        forall|v: Seq<char>|
            #[trigger] uploaded_lookups_spec(media_store_id, sha256).contains(
                (LookupColumn::MediaStoreId, v),
            ) <==> (media_store_id is Some && media_store_id->0@ == v),
        forall|v: Seq<char>|
            #[trigger] uploaded_lookups_spec(media_store_id, sha256).contains(
                (LookupColumn::Sha256, v),
            ) <==> (sha256 is Some && sha256->0@ == v),
        uploaded_lookups_spec(media_store_id, sha256).len() == (if media_store_id is Some {
            1int
        } else {
            0int
        }) + (if sha256 is Some {
            1int
        } else {
            0int
        }),
{
    let l = uploaded_lookups_spec(media_store_id, sha256);
    assert forall|v: Seq<char>|
        #[trigger] l.contains((LookupColumn::MediaStoreId, v)) <==> (media_store_id is Some
            && media_store_id->0@ == v) by {
        if media_store_id is Some {
            assert(l[0] == (LookupColumn::MediaStoreId, media_store_id->0@));
        }
    }
    assert forall|v: Seq<char>|
        #[trigger] l.contains((LookupColumn::Sha256, v)) <==> (sha256 is Some && sha256->0@
            == v) by {
        if sha256 is Some {
            assert(l[l.len() - 1] == (LookupColumn::Sha256, sha256->0@));
        }
    }
}

} // verus!
