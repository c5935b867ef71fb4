use vstd::prelude::*;

use crate::json_time_stamp::JsonTimeStamp;
use crate::keys::{bytes_eq, push_range};

verus! {

/// A range `start..end` of bytes in a document.
#[derive(Clone, Copy, Debug, PartialEq, Eq, Structural)]
pub struct KeyValueContentPosition {
    pub start: usize,
    pub end: usize,
}

/// Where a field stands: its quoted name and its value.
#[derive(Clone, Copy, Debug, PartialEq, Eq, Structural)]
pub struct JsonKeyValuePosition {
    pub key: KeyValueContentPosition,
    pub value: KeyValueContentPosition,
}

/// Why a document could not be taken in.
#[derive(Clone, Copy, Debug, PartialEq, Eq, Structural)]
pub enum DbEntityParseFail {
    FieldPartitionKeyIsRequired,
    FieldRowKeyIsRequired,
    JsonParseError,
}

pub open spec fn partition_key_name() -> Seq<u8> {
    seq![80u8, 97, 114, 116, 105, 116, 105, 111, 110, 75, 101, 121]
}

pub open spec fn row_key_name() -> Seq<u8> {
    seq![82u8, 111, 119, 75, 101, 121]
}

pub open spec fn time_stamp_name() -> Seq<u8> {
    seq![84u8, 105, 109, 101, 83, 116, 97, 109, 112]
}

pub open spec fn expires_name() -> Seq<u8> {
    seq![69u8, 120, 112, 105, 114, 101, 115]
}

fn bytes_of(src: &[u8]) -> (r: Vec<u8>)
    ensures
        r@ == src@,
{
    crate::keys::copy_bytes(src)
}

pub fn partition_key_name_bytes() -> (r: Vec<u8>)
    ensures
        r@ == partition_key_name(),
{
    let r = vec![80u8, 97, 114, 116, 105, 116, 105, 111, 110, 75, 101, 121];
    assert(r@ =~= partition_key_name());
    r
}

pub fn row_key_name_bytes() -> (r: Vec<u8>)
    ensures
        r@ == row_key_name(),
{
    let r = vec![82u8, 111, 119, 75, 101, 121];
    assert(r@ =~= row_key_name());
    r
}

pub fn time_stamp_name_bytes() -> (r: Vec<u8>)
    ensures
        r@ == time_stamp_name(),
{
    let r = vec![84u8, 105, 109, 101, 83, 116, 97, 109, 112];
    assert(r@ =~= time_stamp_name());
    r
}

pub fn expires_name_bytes() -> (r: Vec<u8>)
    ensures
        r@ == expires_name(),
{
    let r = vec![69u8, 120, 112, 105, 114, 101, 115];
    assert(r@ =~= expires_name());
    r
}

/// JSON whitespace: space, tab, line feed, carriage return.
pub open spec fn is_json_space(b: u8) -> bool {
    b == 32 || b == 9 || b == 10 || b == 13
}

/// `p` is a field named `name` with a string value: the name and the value both stand in
/// quotes within `raw`.
pub open spec fn is_string_field(raw: Seq<u8>, p: JsonKeyValuePosition, name: Seq<u8>) -> bool {
    &&& p.key.start + 2 <= p.key.end <= p.value.start
    &&& p.value.start + 2 <= p.value.end <= raw.len()
    &&& raw[p.key.start as int] == 34u8
    &&& raw[p.key.end - 1] == 34u8
    &&& raw.subrange(p.key.start + 1, p.key.end - 1) == name
    &&& raw[p.value.start as int] == 34u8
    &&& raw[p.value.end - 1] == 34u8
}

/// `p` is a field named `name` with any value.
pub open spec fn is_field(raw: Seq<u8>, p: JsonKeyValuePosition, name: Seq<u8>) -> bool {
    &&& 1 <= p.key.start
    &&& p.key.start + 2 <= p.key.end <= p.value.start < p.value.end <= raw.len()
    &&& raw[p.key.start as int] == 34u8
    &&& raw[p.key.end - 1] == 34u8
    &&& raw.subrange(p.key.start + 1, p.key.end - 1) == name
}

/// The fields found so far while reading a document.
#[derive(Clone, Copy, Debug)]
pub struct FoundFields {
    pub partition_key: Option<JsonKeyValuePosition>,
    pub row_key: Option<JsonKeyValuePosition>,
    pub expires: Option<JsonKeyValuePosition>,
    pub time_stamp: Option<JsonKeyValuePosition>,
}

pub open spec fn no_fields() -> FoundFields {
    FoundFields { partition_key: None, row_key: None, expires: None, time_stamp: None }
}

pub open spec fn fields_of(
    partition_key: Option<JsonKeyValuePosition>,
    row_key: Option<JsonKeyValuePosition>,
    expires: Option<JsonKeyValuePosition>,
    time_stamp: Option<JsonKeyValuePosition>,
) -> FoundFields {
    FoundFields { partition_key, row_key, expires, time_stamp }
}

/// The fields found after the field at `p` is read: a name the store reads is taken the first
/// time it comes, and `PartitionKey`, `RowKey` and `TimeStamp` only with a string value.
pub open spec fn record_field(raw: Seq<u8>, f: FoundFields, p: JsonKeyValuePosition) -> FoundFields {
    let name = raw.subrange(p.key.start + 1, p.key.end - 1);
    let is_string = raw[p.value.start as int] == 34u8;
    if f.partition_key is None && is_string && name == partition_key_name() {
        FoundFields { partition_key: Some(p), ..f }
    } else if f.row_key is None && is_string && name == row_key_name() {
        FoundFields { row_key: Some(p), ..f }
    } else if f.time_stamp is None && is_string && name == time_stamp_name() {
        FoundFields { time_stamp: Some(p), ..f }
    } else if f.expires is None && name == expires_name() {
        FoundFields { expires: Some(p), ..f }
    } else {
        f
    }
}

/// Reads the members of an object from the one that starts at `i`: a quoted name, a colon and
/// a value, then a comma and the next member or the closing brace. Gives the position after the
/// brace and the fields found.
pub open spec fn members(raw: Seq<u8>, i: int, f: FoundFields) -> Result<(int, FoundFields), DbEntityParseFail>
    decreases raw.len() - i,
{
    if i < 0 || i >= raw.len() || raw[i] != 34u8 {
        Err(DbEntityParseFail::JsonParseError)
    } else {
        match string_end(raw, i + 1) {
            None => Err(DbEntityParseFail::JsonParseError),
            Some(ke) => {
                let c = skip_ws(raw, ke);
                if c < 0 || c >= raw.len() || raw[c] != 58u8 {
                    Err(DbEntityParseFail::JsonParseError)
                } else {
                    let vs = skip_ws(raw, c + 1);
                    if vs < 0 || vs >= raw.len() {
                        Err(DbEntityParseFail::JsonParseError)
                    } else {
                        match value_end(raw, vs) {
                            None => Err(DbEntityParseFail::JsonParseError),
                            Some(ve) => {
                                let p = JsonKeyValuePosition {
                                    key: KeyValueContentPosition { start: i as usize, end: ke as usize },
                                    value: KeyValueContentPosition { start: vs as usize, end: ve as usize },
                                };
                                let f2 = record_field(raw, f, p);
                                let a = skip_ws(raw, ve);
                                if a < 0 || a >= raw.len() {
                                    Err(DbEntityParseFail::JsonParseError)
                                } else if raw[a] == 125u8 {
                                    Ok((a + 1, f2))
                                } else if raw[a] != 44u8 {
                                    Err(DbEntityParseFail::JsonParseError)
                                } else {
                                    let next = skip_ws(raw, a + 1);
                                    if i < next <= raw.len() {
                                        members(raw, next, f2)
                                    } else {
                                        Err(DbEntityParseFail::JsonParseError)
                                    }
                                }
                            },
                        }
                    }
                }
            },
        }
    }
}

/// What reading a document gives: a JSON object, with only whitespace around it, whose
/// members hold a string `PartitionKey` and a string `RowKey`.
pub open spec fn parse_entity(raw: Seq<u8>) -> Result<DbJsonEntity, DbEntityParseFail> {
    let i = skip_ws(raw, 0);
    if i >= raw.len() || raw[i] != 123u8 {
        Err(DbEntityParseFail::JsonParseError)
    } else {
        let j = skip_ws(raw, i + 1);
        let res = if j < raw.len() && raw[j] == 125u8 {
            Ok((j + 1, no_fields()))
        } else {
            members(raw, j, no_fields())
        };
        finish_parse(raw, res)
    }
}

/// After the members: only whitespace may follow, and both keys must have been found.
pub open spec fn finish_parse(raw: Seq<u8>, res: Result<(int, FoundFields), DbEntityParseFail>) -> Result<
    DbJsonEntity,
    DbEntityParseFail,
> {
    match res {
        Err(e) => Err(e),
        Ok((k, f)) => if skip_ws(raw, k) < raw.len() {
            Err(DbEntityParseFail::JsonParseError)
        } else {
            match (f.partition_key, f.row_key) {
                (Some(p), Some(r)) => Ok(
                    DbJsonEntity {
                        partition_key: p,
                        row_key: r,
                        expires: f.expires,
                        time_stamp: f.time_stamp,
                    },
                ),
                (None, _) => Err(DbEntityParseFail::FieldPartitionKeyIsRequired),
                (_, None) => Err(DbEntityParseFail::FieldRowKeyIsRequired),
            }
        },
    }
}

/// The fields of a document that the store reads.
#[derive(Clone, Copy, Debug)]
pub struct DbJsonEntity {
    pub partition_key: JsonKeyValuePosition,
    pub row_key: JsonKeyValuePosition,
    pub expires: Option<JsonKeyValuePosition>,
    pub time_stamp: Option<JsonKeyValuePosition>,
}

impl DbJsonEntity {
    /// The positions describe fields of a document of `len` bytes.
    pub open spec fn fits(&self, len: int) -> bool {
        &&& self.partition_key.value.start + 2 <= self.partition_key.value.end <= len
        &&& self.row_key.value.start + 2 <= self.row_key.value.end <= len
        &&& match self.time_stamp {
            Some(t) => t.value.start + 2 <= t.value.end <= len,
            None => true,
        }
        &&& match self.expires {
            Some(e) => 1 <= e.key.start <= e.value.end <= len,
            None => true,
        }
    }

    /// The positions describe the named fields of `raw`.
    pub open spec fn describes(&self, raw: Seq<u8>) -> bool {
        &&& is_string_field(raw, self.partition_key, partition_key_name())
        &&& is_string_field(raw, self.row_key, row_key_name())
        &&& match self.time_stamp {
            Some(t) => is_string_field(raw, t, time_stamp_name()),
            None => true,
        }
        &&& match self.expires {
            Some(e) => is_field(raw, e, expires_name()),
            None => true,
        }
    }

    /// Reads the top-level fields of a JSON object and where `PartitionKey`, `RowKey`,
    /// `TimeStamp` and `Expires` stand; the first of equal names counts.
    pub fn parse(raw: &[u8]) -> (r: Result<DbJsonEntity, DbEntityParseFail>)
        ensures
            r == parse_entity(raw@),
            r matches Ok(e) ==> e.describes(raw@) && e.fits(raw@.len() as int),
    {
        let n = raw.len();
        let mut i = skip_spaces(raw, 0);
        if i >= n || raw[i] != 123u8 {
            return Err(DbEntityParseFail::JsonParseError);
        }
        i = skip_spaces(raw, i + 1);
        let ghost start = i as int;
        let mut partition_key: Option<JsonKeyValuePosition> = None;
        let mut row_key: Option<JsonKeyValuePosition> = None;
        let mut expires: Option<JsonKeyValuePosition> = None;
        let mut time_stamp: Option<JsonKeyValuePosition> = None;
        let pk_name = partition_key_name_bytes();
        let rk_name = row_key_name_bytes();
        let ts_name = time_stamp_name_bytes();
        let ex_name = expires_name_bytes();
        let ghost outcome: Result<(int, FoundFields), DbEntityParseFail> = if start < raw@.len() && raw@[start] == 125u8 {
            Ok((start + 1, no_fields()))
        } else {
            members(raw@, start, no_fields())
        };
        assert(parse_entity(raw@) == finish_parse(raw@, outcome));
        if i < n && raw[i] == 125u8 {
            i = i + 1;
        } else {
            let mut finished = false;
            while !finished
                invariant
                    1 <= i <= n == raw@.len(),
                    pk_name@ == partition_key_name(),
                    rk_name@ == row_key_name(),
                    ts_name@ == time_stamp_name(),
                    ex_name@ == expires_name(),
                    partition_key matches Some(p) ==> is_string_field(
                        raw@,
                        p,
                        partition_key_name(),
                    ),
                    row_key matches Some(p) ==> is_string_field(raw@, p, row_key_name()),
                    time_stamp matches Some(p) ==> is_string_field(raw@, p, time_stamp_name()),
                    expires matches Some(p) ==> is_field(raw@, p, expires_name()),
                    outcome == members(raw@, start, no_fields()),
                    parse_entity(raw@) == finish_parse(raw@, outcome),
                    !finished ==> members(
                        raw@,
                        i as int,
                        fields_of(partition_key, row_key, expires, time_stamp),
                    ) == outcome,
                    finished ==> outcome == Ok::<(int, FoundFields), DbEntityParseFail>(
                        (i as int, fields_of(partition_key, row_key, expires, time_stamp)),
                    ),
                decreases n - i,
            {
                let ghost f0 = fields_of(partition_key, row_key, expires, time_stamp);
                if i >= n || raw[i] != 34u8 {
                    return Err(DbEntityParseFail::JsonParseError);
                }
                let key_start = i;
                let key_end = match scan_string(raw, i) {
                    Some(e) => e,
                    None => return Err(DbEntityParseFail::JsonParseError),
                };
                let colon = skip_spaces(raw, key_end);
                if colon >= n || raw[colon] != 58u8 {
                    return Err(DbEntityParseFail::JsonParseError);
                }
                let value_start = skip_spaces(raw, colon + 1);
                if value_start >= n {
                    return Err(DbEntityParseFail::JsonParseError);
                }
                let value_end = match scan_value(raw, value_start) {
                    Some(e) => e,
                    None => return Err(DbEntityParseFail::JsonParseError),
                };
                let pos = JsonKeyValuePosition {
                    key: KeyValueContentPosition { start: key_start, end: key_end },
                    value: KeyValueContentPosition { start: value_start, end: value_end },
                };
                let name = &raw[key_start + 1..key_end - 1];
                assert(name@ == raw@.subrange(key_start + 1, key_end - 1));
                let is_string = raw[value_start] == 34u8;
                if partition_key.is_none() && is_string && bytes_eq(name, pk_name.as_slice()) {
                    partition_key = Some(pos);
                } else if row_key.is_none() && is_string && bytes_eq(name, rk_name.as_slice()) {
                    row_key = Some(pos);
                } else if time_stamp.is_none() && is_string && bytes_eq(
                    name,
                    ts_name.as_slice(),
                ) {
                    time_stamp = Some(pos);
                } else if expires.is_none() && bytes_eq(name, ex_name.as_slice()) {
                    expires = Some(pos);
                }
                assert(fields_of(partition_key, row_key, expires, time_stamp) == record_field(
                    raw@,
                    f0,
                    pos,
                ));
                let after = skip_spaces(raw, value_end);
                if after >= n {
                    return Err(DbEntityParseFail::JsonParseError);
                }
                if raw[after] == 125u8 {
                    i = after + 1;
                    finished = true;
                } else {
                    if raw[after] != 44u8 {
                        return Err(DbEntityParseFail::JsonParseError);
                    }
                    i = skip_spaces(raw, after + 1);
                }
            }
        }
        assert(outcome == Ok::<(int, FoundFields), DbEntityParseFail>(
            (i as int, fields_of(partition_key, row_key, expires, time_stamp)),
        ));
        i = skip_spaces(raw, i);
        if i < n {
            return Err(DbEntityParseFail::JsonParseError);
        }
        match (partition_key, row_key) {
            (Some(p), Some(r)) => Ok(DbJsonEntity { partition_key: p, row_key: r, expires, time_stamp }),
            (None, _) => Err(DbEntityParseFail::FieldPartitionKeyIsRequired),
            (_, None) => Err(DbEntityParseFail::FieldRowKeyIsRequired),
        }
    }

    /// Parses a document; where it has no `TimeStamp` one is added before its closing brace,
    /// with the text of `time_stamp`. Gives the bytes to store and their fields.
    pub fn parse_with_time_stamp(raw: &[u8], time_stamp: &JsonTimeStamp) -> (r: Result<
        (Vec<u8>, DbJsonEntity),
        DbEntityParseFail,
    >)
        ensures
            r matches Ok((bytes, e)) ==> e.describes(bytes@) && e.fits(bytes@.len() as int)
                && e.time_stamp is Some,
            r matches Ok((bytes, e)) ==> (bytes@ == raw@ || bytes@ == with_time_stamp(
                raw@,
                time_stamp.as_slice_view(),
            )),
            match parse_entity(raw@) {
                Err(err) => r == Err::<(Vec<u8>, DbJsonEntity), DbEntityParseFail>(err),
                Ok(e) => if e.time_stamp is Some {
                    r matches Ok((bytes, e2)) && bytes@ == raw@ && e2 == e
                } else {
                    let spliced = with_time_stamp(raw@, time_stamp.as_slice_view());
                    match parse_entity(spliced) {
                        Err(err) => r == Err::<(Vec<u8>, DbJsonEntity), DbEntityParseFail>(err),
                        Ok(e2) => if e2.time_stamp is Some {
                            r matches Ok((bytes, e3)) && bytes@ == spliced && e3 == e2
                        } else {
                            r == Err::<(Vec<u8>, DbJsonEntity), DbEntityParseFail>(
                                DbEntityParseFail::JsonParseError,
                            )
                        },
                    }
                },
            },
    {
        let first = DbJsonEntity::parse(raw);
        match first {
            Err(e) => Err(e),
            Ok(entity) => {
                if entity.time_stamp.is_some() {
                    return Ok((bytes_of(raw), entity));
                }
                let spliced = splice_time_stamp(raw, time_stamp.as_slice());
                match DbJsonEntity::parse(spliced.as_slice()) {
                    Err(e) => Err(e),
                    Ok(second) => {
                        if second.time_stamp.is_none() {
                            return Err(DbEntityParseFail::JsonParseError);
                        }
                        Ok((spliced, second))
                    },
                }
            },
        }
    }
}

/// `raw` with `,"TimeStamp":"<text>"` put before its last closing brace.
pub open spec fn with_time_stamp(raw: Seq<u8>, text: Seq<u8>) -> Seq<u8> {
    let end = crate::db_row::end_of_json(raw);
    raw.take(end) + seq![44u8, 34u8] + time_stamp_name() + seq![34u8, 58u8, 34u8] + text + seq![
        34u8,
    ] + raw.skip(end)
}

fn splice_time_stamp(raw: &[u8], text: &[u8]) -> (r: Vec<u8>)
    ensures
        r@ == with_time_stamp(raw@, text@),
{
    let end = crate::db_row::get_the_end_of_the_json(raw);
    proof {
        crate::db_row::lemma_end_of_json_bound(raw@);
    }
    let mut out: Vec<u8> = Vec::new();
    push_range(&mut out, raw, 0, end);
    out.push(44u8);
    out.push(34u8);
    let name = time_stamp_name_bytes();
    push_range(&mut out, name.as_slice(), 0, name.len());
    out.push(34u8);
    out.push(58u8);
    out.push(34u8);
    push_range(&mut out, text, 0, text.len());
    out.push(34u8);
    push_range(&mut out, raw, end, raw.len());
    proof {
        assert(raw@.subrange(0, end as int) =~= raw@.take(end as int));
        assert(raw@.subrange(end as int, raw@.len() as int) =~= raw@.skip(end as int));
        assert(name@.subrange(0, name@.len() as int) =~= time_stamp_name());
        assert(text@.subrange(0, text@.len() as int) =~= text@);
        assert(out@ =~= with_time_stamp(raw@, text@));
    }
    out
}

/// A position or none, as integers.
pub open spec fn opt_int(o: Option<usize>) -> Option<int> {
    match o {
        Some(e) => Some(e as int),
        None => None,
    }
}

/// The first position from `i` on that holds no JSON whitespace.
pub open spec fn skip_ws(raw: Seq<u8>, i: int) -> int
    decreases raw.len() - i,
{
    if 0 <= i < raw.len() && is_json_space(raw[i]) {
        skip_ws(raw, i + 1)
    } else {
        i
    }
}

/// Inside a string from `j` on: the position just after its closing quote; a backslash escapes
/// the byte after it.
pub open spec fn string_end(raw: Seq<u8>, j: int) -> Option<int>
    decreases raw.len() - j,
{
    if j < 0 || j >= raw.len() {
        None
    } else if raw[j] == 34u8 {
        Some(j + 1)
    } else if raw[j] == 92u8 {
        if j + 1 >= raw.len() {
            None
        } else {
            string_end(raw, j + 2)
        }
    } else {
        string_end(raw, j + 1)
    }
}

/// Inside an object or array from `j` on, `depth` brackets deep: the position just after the
/// bracket that closes it. Strings are skipped whole.
pub open spec fn nested_end(raw: Seq<u8>, j: int, depth: int) -> Option<int>
    decreases raw.len() - j,
{
    if j < 0 || j >= raw.len() {
        None
    } else if raw[j] == 34u8 {
        match string_end(raw, j + 1) {
            Some(e) => if j < e <= raw.len() {
                nested_end(raw, e, depth)
            } else {
                None
            },
            None => None,
        }
    } else if raw[j] == 123u8 || raw[j] == 91u8 {
        nested_end(raw, j + 1, depth + 1)
    } else if raw[j] == 125u8 || raw[j] == 93u8 {
        if depth <= 1 {
            Some(j + 1)
        } else {
            nested_end(raw, j + 1, depth - 1)
        }
    } else {
        nested_end(raw, j + 1, depth)
    }
}

/// A byte that ends a bare word: a comma, a closing bracket or whitespace.
pub open spec fn ends_word(b: u8) -> bool {
    b == 44u8 || b == 125u8 || b == 93u8 || is_json_space(b)
}

/// From `j` on, the first position that ends a bare word.
pub open spec fn word_end(raw: Seq<u8>, j: int) -> int
    decreases raw.len() - j,
{
    if 0 <= j < raw.len() && !ends_word(raw[j]) {
        word_end(raw, j + 1)
    } else {
        j
    }
}

/// The position just after the value that starts at `i`.
pub open spec fn value_end(raw: Seq<u8>, i: int) -> Option<int> {
    if raw[i] == 34u8 {
        string_end(raw, i + 1)
    } else if raw[i] == 123u8 || raw[i] == 91u8 {
        nested_end(raw, i + 1, 1)
    } else {
        let e = word_end(raw, i);
        if e == i {
            None
        } else {
            Some(e)
        }
    }
}

/// The first position from `i` on that holds no JSON whitespace.
fn skip_spaces(raw: &[u8], i: usize) -> (r: usize)
    ensures
        i <= raw@.len() ==> i <= r <= raw@.len(),
        i > raw@.len() ==> r == i,
        r == skip_ws(raw@, i as int),
{
    let mut j = i;
    while j < raw.len() && (raw[j] == 32u8 || raw[j] == 9u8 || raw[j] == 10u8 || raw[j] == 13u8)
        invariant
            i <= j,
            i <= raw@.len() ==> j <= raw@.len(),
            i > raw@.len() ==> j == i,
            skip_ws(raw@, i as int) == skip_ws(raw@, j as int),
        decreases raw@.len() - j,
    {
        j = j + 1;
    }
    j
}

/// Given an opening quote at `i`, the position just after the closing quote; a backslash
/// escapes the byte after it.
fn scan_string(raw: &[u8], i: usize) -> (r: Option<usize>)
    requires
        i < raw@.len(),
        raw@[i as int] == 34u8,
    ensures
        r matches Some(e) ==> i + 2 <= e <= raw@.len() && raw@[e - 1] == 34u8,
        opt_int(r) == string_end(raw@, i + 1),
{
    let n = raw.len();
    let mut j = i + 1;
    while j < n
        invariant
            i + 1 <= j <= n,
            n == raw@.len(),
            string_end(raw@, i + 1) == string_end(raw@, j as int),
        decreases n - j,
    {
        let b = raw[j];
        if b == 34u8 {
            return Some(j + 1);
        }
        if b == 92u8 {
            if j + 1 >= n {
                return None;
            }
            j = j + 2;
        } else {
            j = j + 1;
        }
    }
    None
}

/// Given the first byte of a value at `i`, the position just after the value: a string, an
/// object or array (brackets counted, strings skipped), or a bare word or number.
fn scan_value(raw: &[u8], i: usize) -> (r: Option<usize>)
    requires
        i < raw@.len(),
    ensures
        r matches Some(e) ==> i < e <= raw@.len(),
        raw@[i as int] == 34u8 ==> (r matches Some(e) ==> i + 2 <= e && raw@[e - 1] == 34u8),
        opt_int(r) == value_end(raw@, i as int),
{
    let b = raw[i];
    if b == 34u8 {
        return scan_string(raw, i);
    }
    if b == 123u8 || b == 91u8 {
        let mut depth: usize = 1;
        let mut j = i + 1;
        while j < raw.len()
            invariant
                i < j <= raw@.len(),
                raw@[i as int] != 34u8,
                raw@[i as int] == 123u8 || raw@[i as int] == 91u8,
                depth >= 1,
                depth <= j - i,
                nested_end(raw@, i + 1, 1) == nested_end(raw@, j as int, depth as int),
            decreases raw@.len() - j,
        {
            let c = raw[j];
            if c == 34u8 {
                match scan_string(raw, j) {
                    Some(e) => {
                        j = e;
                    },
                    None => {
                        return None;
                    },
                }
            } else if c == 123u8 || c == 91u8 {
                depth = depth + 1;
                j = j + 1;
            } else if c == 125u8 || c == 93u8 {
                if depth == 1 {
                    return Some(j + 1);
                }
                depth = depth - 1;
                j = j + 1;
            } else {
                j = j + 1;
            }
        }
        return None;
    }
    let mut j = i;
    while j < raw.len() && raw[j] != 44u8 && raw[j] != 125u8 && raw[j] != 93u8 && raw[j] != 32u8
        && raw[j] != 9u8 && raw[j] != 10u8 && raw[j] != 13u8
        invariant
            i <= j <= raw@.len(),
            word_end(raw@, i as int) == word_end(raw@, j as int),
        decreases raw@.len() - j,
    {
        j = j + 1;
    }
    if j == i {
        None
    } else {
        Some(j)
    }
}

} // verus!
