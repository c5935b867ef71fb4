use vstd::prelude::*;

use crate::json_entity::{
    expires_name, expires_name_bytes, DbJsonEntity, JsonKeyValuePosition, KeyValueContentPosition,
};
use crate::keys::{copy_bytes, push_range};
use crate::time::DateTimeAsMicroseconds;

verus! {

/// An expiration moment together with its RFC 3339 text, as the document shows it.
pub struct Expiration {
    pub moment: DateTimeAsMicroseconds,
    pub rfc3339: Vec<u8>,
}

impl Clone for Expiration {
    fn clone(&self) -> (r: Self)
        ensures
            r.moment == self.moment,
            r.rfc3339@ == self.rfc3339@,
    {
        Expiration { moment: self.moment, rfc3339: copy_bytes(self.rfc3339.as_slice()) }
    }
}

impl Expiration {
    pub fn new(moment: DateTimeAsMicroseconds, rfc3339: &[u8]) -> (r: Self)
        ensures
            r.moment == moment,
            r.rfc3339@ == rfc3339@,
    {
        Expiration { moment, rfc3339: copy_bytes(rfc3339) }
    }
}

/// An expiration as a row holds it: one with a zero moment counts as none.
pub open spec fn normalized(e: Option<Expiration>) -> Option<Expiration> {
    match e {
        Some(x) => if x.moment.unix_microseconds == 0 {
            None
        } else {
            Some(x)
        },
        None => None,
    }
}

/// The moment of an expiration, where a zero moment stands for none.
pub open spec fn moment_of(e: Option<Expiration>) -> Option<int> {
    match e {
        Some(x) => if x.moment.unix_microseconds == 0 {
            None
        } else {
            Some(x.moment.unix_microseconds as int)
        },
        None => None,
    }
}

/// `"Expires":"<text cut to its first 19 bytes>"`.
pub open spec fn expires_field(text: Seq<u8>) -> Seq<u8> {
    let cut = if text.len() > 19 {
        text.take(19)
    } else {
        text
    };
    seq![34u8] + expires_name() + seq![34u8, 58u8, 34u8] + cut + seq![34u8]
}

/// Whitespace in the sense of the separator search: any byte up to the space.
pub open spec fn is_space(b: u8) -> bool {
    b <= 32
}

/// From `pos` down to (not including) 0, skipping spaces: the position of a comma met first.
pub open spec fn separator_before(src: Seq<u8>, pos: int) -> Option<int>
    decreases pos,
{
    if pos <= 0 || pos >= src.len() {
        None
    } else if is_space(src[pos]) {
        separator_before(src, pos - 1)
    } else if src[pos] == 44u8 {
        Some(pos)
    } else {
        None
    }
}

/// From `pos` upwards, skipping spaces: the position just after a comma met first.
pub open spec fn separator_after(src: Seq<u8>, pos: int) -> Option<int>
    decreases src.len() - pos,
{
    if pos < 0 || pos >= src.len() {
        None
    } else if is_space(src[pos]) {
        separator_after(src, pos + 1)
    } else if src[pos] == 44u8 {
        Some(pos + 1)
    } else {
        None
    }
}

/// The position of the last `}` of a document, or its length when it has none.
pub open spec fn end_of_json(src: Seq<u8>) -> int
    decreases src.len(),
{
    if src.len() == 0 {
        0
    } else if src.last() == 125u8 {
        src.len() - 1
    } else {
        end_of_json(src.drop_last())
    }
}

pub proof fn lemma_end_of_json_bound(src: Seq<u8>)
    ensures
        0 <= end_of_json(src) <= src.len(),
    decreases src.len(),
{
    if src.len() > 0 {
        lemma_end_of_json_bound(src.drop_last());
    }
}

pub proof fn lemma_separator_before_bound(src: Seq<u8>, pos: int)
    ensures
        separator_before(src, pos) matches Some(b) ==> 0 < b <= pos && b < src.len(),
    decreases pos,
{
    if pos > 0 && pos < src.len() && is_space(src[pos]) {
        lemma_separator_before_bound(src, pos - 1);
    }
}

pub proof fn lemma_separator_after_bound(src: Seq<u8>, pos: int)
    ensures
        separator_after(src, pos) matches Some(a) ==> pos < a <= src.len(),
    decreases src.len() - pos,
{
    if pos >= 0 && pos < src.len() && is_space(src[pos]) {
        lemma_separator_after_bound(src, pos + 1);
    }
}

/// Searches down from `pos` over spaces for a comma; see `separator_before`.
pub fn find_json_separator_before(src: &[u8], pos: usize) -> (r: Option<usize>)
    ensures
        r matches Some(b) ==> separator_before(src@, pos as int) == Some(b as int),
        r is None ==> separator_before(src@, pos as int) is None,
{
    if pos >= src.len() {
        return None;
    }
    let mut i: usize = pos;
    while i > 0
        invariant
            i <= pos < src@.len(),
            separator_before(src@, pos as int) == separator_before(src@, i as int),
        decreases i,
    {
        let b = src[i];
        if b <= 32 {
            i = i - 1;
            continue ;
        }
        if b == 44u8 {
            return Some(i);
        }
        return None;
    }
    None
}

/// Searches up from `pos` over spaces for a comma; see `separator_after`.
pub fn find_json_separator_after(src: &[u8], pos: usize) -> (r: Option<usize>)
    ensures
        r matches Some(a) ==> separator_after(src@, pos as int) == Some(a as int),
        r is None ==> separator_after(src@, pos as int) is None,
{
    let mut i: usize = pos;
    while i < src.len()
        invariant
            pos <= i,
            separator_after(src@, pos as int) == separator_after(src@, i as int),
        decreases src@.len() - i,
    {
        let b = src[i];
        if b <= 32 {
            i = i + 1;
            continue ;
        }
        if b == 44u8 {
            return Some(i + 1);
        }
        return None;
    }
    None
}

/// The position of the last `}` of a document, or its length when it has none.
pub fn get_the_end_of_the_json(src: &[u8]) -> (r: usize)
    ensures
        r == end_of_json(src@),
{
    let mut i: usize = src.len();
    assert(src@.take(i as int) =~= src@);
    while i > 0
        invariant
            i <= src@.len(),
            end_of_json(src@) == end_of_json(src@.take(i as int)),
        decreases i,
    {
        if src[i - 1] == 125u8 {
            return i - 1;
        }
        proof {
            assert(src@.take(i as int).drop_last() =~= src@.take(i - 1));
        }
        i = i - 1;
    }
    proof {
        assert(src@.take(0) =~= Seq::<u8>::empty());
    }
    0
}

/// One stored document: its bytes as received and where its fields stand in them.
pub struct DbRow {
    partition_key: KeyValueContentPosition,
    row_key: KeyValueContentPosition,
    raw: Vec<u8>,
    expires_value: Option<Expiration>,
    expires: Option<JsonKeyValuePosition>,
    time_stamp: KeyValueContentPosition,
    last_read_access: DateTimeAsMicroseconds,
}

impl Clone for DbRow {
    fn clone(&self) -> (r: Self)
        ensures
            r.same_row(self),
    {
        let expires_value = match &self.expires_value {
            Some(x) => Some(x.clone()),
            None => None,
        };
        DbRow {
            partition_key: self.partition_key,
            row_key: self.row_key,
            raw: copy_bytes(self.raw.as_slice()),
            expires_value,
            expires: self.expires,
            time_stamp: self.time_stamp,
            last_read_access: self.last_read_access,
        }
    }
}

/// The inside of a quoted value: without its two quotes.
fn content_of(value: KeyValueContentPosition) -> (r: KeyValueContentPosition)
    requires
        value.start + 2 <= value.end,
    ensures
        r.start == value.start + 1,
        r.end == value.end - 1,
{
    KeyValueContentPosition { start: value.start + 1, end: value.end - 1 }
}

/// `r` lies within a document of `len` bytes.
pub open spec fn range_in(r: KeyValueContentPosition, len: int) -> bool {
    r.start <= r.end <= len
}

impl DbRow {
    pub closed spec fn raw_view(&self) -> Seq<u8> {
        self.raw@
    }

    /// The current expiration; none where its moment is zero.
    pub closed spec fn expiration(&self) -> Option<Expiration> {
        self.expires_value
    }

    pub open spec fn expires_moment(&self) -> Option<int> {
        moment_of(self.expiration())
    }

    pub closed spec fn partition_key_view(&self) -> Seq<u8> {
        self.raw@.subrange(self.partition_key.start as int, self.partition_key.end as int)
    }

    pub closed spec fn row_key_view(&self) -> Seq<u8> {
        self.raw@.subrange(self.row_key.start as int, self.row_key.end as int)
    }

    pub closed spec fn time_stamp_view(&self) -> Seq<u8> {
        self.raw@.subrange(self.time_stamp.start as int, self.time_stamp.end as int)
    }

    pub closed spec fn expires_position(&self) -> Option<JsonKeyValuePosition> {
        self.expires
    }

    pub closed spec fn last_read_view(&self) -> int {
        self.last_read_access.unix_microseconds as int
    }

    /// The row with its expiration set to `e`, where a zero moment counts as none.
    pub closed spec fn with_expiration(&self, e: Option<Expiration>) -> DbRow {
        DbRow {
            expires_value: match e {
                Some(x) => if x.moment.unix_microseconds == 0 {
                    None
                } else {
                    Some(x)
                },
                None => None,
            },
            ..*self
        }
    }

    /// Setting the same expiration twice leaves the row as setting it once.
    pub proof fn lemma_with_expiration_twice(&self, e: Option<Expiration>)
        ensures
            self.with_expiration(e).with_expiration(e) == self.with_expiration(e),
            self.with_expiration(e).row_key_view() == self.row_key_view(),
            self.with_expiration(e).partition_key_view() == self.partition_key_view(),
            self.with_expiration(e).raw_view() == self.raw_view(),
            self.with_expiration(e).expires_moment() == moment_of(e),
            self.wf() ==> self.with_expiration(e).wf(),
    {
    }

    /// Without an expiration now or in the document, the document is written as received.
    pub proof fn lemma_json_without_expires(&self)
        requires
            self.wf(),
            self.expires_position() is None,
            self.expires_moment() is None,
        ensures
            self.json() == self.raw_view(),
    {
    }

    /// Both rows hold the same document, fields and times.
    pub closed spec fn same_row(&self, o: &DbRow) -> bool {
        &&& self.raw@ == o.raw@
        &&& self.partition_key == o.partition_key
        &&& self.row_key == o.row_key
        &&& self.time_stamp == o.time_stamp
        &&& self.expires == o.expires
        &&& self.last_read_access == o.last_read_access
        &&& match (self.expires_value, o.expires_value) {
            (Some(x), Some(y)) => x.moment == y.moment && x.rfc3339@ == y.rfc3339@,
            (None, None) => true,
            _ => false,
        }
    }

    pub proof fn lemma_same_row(&self, o: &DbRow)
        requires
            self.same_row(o),
        ensures
            self.wf() == o.wf(),
            self.raw_view() == o.raw_view(),
            self.partition_key_view() == o.partition_key_view(),
            self.row_key_view() == o.row_key_view(),
            self.time_stamp_view() == o.time_stamp_view(),
            self.expires_moment() == o.expires_moment(),
            self.expires_position() == o.expires_position(),
            self.last_read_view() == o.last_read_view(),
            self.json() == o.json(),
    {
    }

    pub closed spec fn wf(&self) -> bool {
        &&& range_in(self.partition_key, self.raw@.len() as int)
        &&& range_in(self.row_key, self.raw@.len() as int)
        &&& range_in(self.time_stamp, self.raw@.len() as int)
        &&& match self.expires {
            Some(e) => 1 <= e.key.start <= e.value.end <= self.raw@.len(),
            None => true,
        }
        &&& match self.expires_value {
            Some(x) => x.moment.unix_microseconds != 0,
            None => true,
        }
    }

    /// The document that `write_json` emits for the current expiration.
    pub open spec fn json(&self) -> Seq<u8> {
        let raw = self.raw_view();
        match (self.expiration(), self.expires_position()) {
            (None, None) => raw,
            (None, Some(e)) => {
                let ks = e.key.start as int;
                let ve = e.value.end as int;
                match separator_before(raw, ks - 1) {
                    Some(b) => raw.take(b) + raw.skip(ve),
                    None => match separator_after(raw, ve) {
                        Some(a) => raw.take(ks) + raw.skip(a),
                        None => raw.take(ks) + raw.skip(ve),
                    },
                }
            },
            (Some(x), Some(e)) => raw.take(e.key.start as int) + expires_field(x.rfc3339@)
                + raw.skip(e.value.end as int),
            (Some(x), None) => {
                let end = end_of_json(raw);
                raw.take(end) + seq![44u8] + expires_field(x.rfc3339@) + raw.skip(end)
            },
        }
    }

    /// What a well-formed row guarantees of its fields: the `Expires` pair lies within the
    /// document after its first byte, and a held expiration has a moment other than zero.
    pub proof fn lemma_wf(&self)
        requires
            self.wf(),
        ensures
            self.expires_position() matches Some(e) ==> 1 <= e.key.start <= e.value.end
                <= self.raw_view().len(),
            self.expiration() matches Some(x) ==> x.moment.unix_microseconds != 0,
            self.expiration() is Some <==> self.expires_moment() is Some,
    {
    }

    /// Builds a row from a parsed document, with the expiration and the moment of ingest that
    /// the caller read from it.
    pub fn new(
        db_json_entity: DbJsonEntity,
        raw: Vec<u8>,
        expires: Option<Expiration>,
        time_stamp: DateTimeAsMicroseconds,
    ) -> (r: Self)
        requires
            db_json_entity.fits(raw@.len() as int),
        ensures
            r.wf(),
            r.raw_view() == raw@,
            r.partition_key_view() == raw@.subrange(
                db_json_entity.partition_key.value.start + 1,
                db_json_entity.partition_key.value.end - 1,
            ),
            r.row_key_view() == raw@.subrange(
                db_json_entity.row_key.value.start + 1,
                db_json_entity.row_key.value.end - 1,
            ),
            r.expires_position() == db_json_entity.expires,
            r.expires_moment() == moment_of(expires),
            r.expires_moment() is Some ==> r.expiration() == expires,
            r.expiration() == normalized(expires),
            db_json_entity.time_stamp matches Some(t) ==> r.time_stamp_view() == raw@.subrange(
                t.value.start + 1,
                t.value.end - 1,
            ),
            r.last_read_view() == time_stamp.unix_microseconds,
    {
        let expires_value = match expires {
            Some(x) => if x.moment.unix_microseconds == 0 {
                None
            } else {
                Some(x)
            },
            None => None,
        };
        let ts = match db_json_entity.time_stamp {
            Some(t) => content_of(t.value),
            None => KeyValueContentPosition { start: 0, end: 0 },
        };
        DbRow {
            partition_key: content_of(db_json_entity.partition_key.value),
            row_key: content_of(db_json_entity.row_key.value),
            raw,
            expires_value,
            expires: db_json_entity.expires,
            time_stamp: ts,
            last_read_access: time_stamp,
        }
    }

    pub fn get_partition_key(&self) -> (r: &[u8])
        requires
            self.wf(),
        ensures
            r@ == self.partition_key_view(),
    {
        &self.raw.as_slice()[self.partition_key.start..self.partition_key.end]
    }

    pub fn get_row_key(&self) -> (r: &[u8])
        requires
            self.wf(),
        ensures
            r@ == self.row_key_view(),
    {
        &self.raw.as_slice()[self.row_key.start..self.row_key.end]
    }

    pub fn get_time_stamp(&self) -> (r: &[u8])
        requires
            self.wf(),
        ensures
            r@ == self.time_stamp_view(),
    {
        &self.raw.as_slice()[self.time_stamp.start..self.time_stamp.end]
    }

    pub fn get_src_as_slice(&self) -> (r: &[u8])
        ensures
            r@ == self.raw_view(),
    {
        self.raw.as_slice()
    }

    pub fn update_last_read_access(&mut self, value: DateTimeAsMicroseconds)
        ensures
            final(self).last_read_view() == value.unix_microseconds,
            final(self).raw_view() == old(self).raw_view(),
            final(self).partition_key_view() == old(self).partition_key_view(),
            final(self).row_key_view() == old(self).row_key_view(),
            final(self).expiration() == old(self).expiration(),
            final(self).expires_position() == old(self).expires_position(),
            final(self).json() == old(self).json(),
            old(self).wf() ==> final(self).wf(),
    {
        self.last_read_access = value;
    }

    pub fn get_last_read_access(&self) -> (r: DateTimeAsMicroseconds)
        ensures
            r.unix_microseconds == self.last_read_view(),
    {
        self.last_read_access
    }

    /// Sets the expiration (a zero moment counts as none) and returns the moment it replaced.
    pub fn update_expires(&mut self, expires: Option<Expiration>) -> (r: Option<
        DateTimeAsMicroseconds,
    >)
        requires
            old(self).wf(),
        ensures
            final(self).wf(),
            *final(self) == old(self).with_expiration(expires),
            r matches Some(m) ==> old(self).expires_moment() == Some(m.unix_microseconds as int),
            r is None ==> old(self).expires_moment() is None,
            final(self).expires_moment() == moment_of(expires),
            final(self).expires_moment() is Some ==> final(self).expiration() == expires,
            final(self).expiration() == normalized(expires),
            final(self).raw_view() == old(self).raw_view(),
            final(self).partition_key_view() == old(self).partition_key_view(),
            final(self).row_key_view() == old(self).row_key_view(),
            final(self).expires_position() == old(self).expires_position(),
            final(self).last_read_view() == old(self).last_read_view(),
    {
        let old_value = self.get_expires();
        self.expires_value = match expires {
            Some(x) => if x.moment.unix_microseconds == 0 {
                None
            } else {
                Some(x)
            },
            None => None,
        };
        old_value
    }

    /// The current expiration moment, none where there is none.
    pub fn get_expires(&self) -> (r: Option<DateTimeAsMicroseconds>)
        requires
            self.wf(),
        ensures
            r matches Some(m) ==> self.expires_moment() == Some(m.unix_microseconds as int),
            r is None ==> self.expires_moment() is None,
    {
        match &self.expires_value {
            Some(x) => Some(x.moment),
            None => None,
        }
    }

    /// Appends the document with its current expiration: an `Expires` field is rewritten,
    /// added before the closing brace, or cut out together with its comma.
    pub fn write_json(&self, out: &mut Vec<u8>)
        requires
            self.wf(),
        ensures
            final(out)@ == old(out)@ + self.json(),
    {
        let raw = self.raw.as_slice();
        let n = raw.len();
        match &self.expires_value {
            None => {
                match &self.expires {
                    Some(e) => {
                        let ks = e.key.start;
                        let ve = e.value.end;
                        if let Some(b) = find_json_separator_before(raw, ks - 1) {
                            proof {
                                lemma_separator_before_bound(raw@, ks - 1);
                            }
                            push_range(out, raw, 0, b);
                            push_range(out, raw, ve, n);
                            proof {
                                assert(raw@.subrange(0, b as int) =~= raw@.take(b as int));
                                assert(raw@.subrange(ve as int, n as int) =~= raw@.skip(ve as int));
                                assert(out@ =~= old(out)@ + self.json());
                            }
                            return ;
                        }
                        if let Some(a) = find_json_separator_after(raw, ve) {
                            proof {
                                lemma_separator_after_bound(raw@, ve as int);
                            }
                            push_range(out, raw, 0, ks);
                            push_range(out, raw, a, n);
                            proof {
                                assert(raw@.subrange(0, ks as int) =~= raw@.take(ks as int));
                                assert(raw@.subrange(a as int, n as int) =~= raw@.skip(a as int));
                                assert(out@ =~= old(out)@ + self.json());
                            }
                            return ;
                        }
                        push_range(out, raw, 0, ks);
                        push_range(out, raw, ve, n);
                        proof {
                            assert(raw@.subrange(0, ks as int) =~= raw@.take(ks as int));
                            assert(raw@.subrange(ve as int, n as int) =~= raw@.skip(ve as int));
                            assert(out@ =~= old(out)@ + self.json());
                        }
                    },
                    None => {
                        push_range(out, raw, 0, n);
                        proof {
                            assert(raw@.subrange(0, n as int) =~= raw@);
                        }
                    },
                }
            },
            Some(x) => {
                match &self.expires {
                    Some(e) => {
                        push_range(out, raw, 0, e.key.start);
                        inject_expires(out, x.rfc3339.as_slice());
                        push_range(out, raw, e.value.end, n);
                        proof {
                            assert(raw@.subrange(0, e.key.start as int) =~= raw@.take(
                                e.key.start as int,
                            ));
                            assert(raw@.subrange(e.value.end as int, n as int) =~= raw@.skip(
                                e.value.end as int,
                            ));
                            assert(out@ =~= old(out)@ + self.json());
                        }
                    },
                    None => {
                        let end_of_json = get_the_end_of_the_json(raw);
                        proof {
                            lemma_end_of_json_bound(raw@);
                        }
                        push_range(out, raw, 0, end_of_json);
                        out.push(44u8);
                        inject_expires(out, x.rfc3339.as_slice());
                        push_range(out, raw, end_of_json, n);
                        proof {
                            assert(raw@.subrange(0, end_of_json as int) =~= raw@.take(
                                end_of_json as int,
                            ));
                            assert(raw@.subrange(end_of_json as int, n as int) =~= raw@.skip(
                                end_of_json as int,
                            ));
                            assert(out@ =~= old(out)@ + self.json());
                        }
                    },
                }
            },
        }
    }

    /// The document with its current expiration, as `write_json` emits it.
    pub fn to_vec(&self) -> (r: Vec<u8>)
        requires
            self.wf(),
        ensures
            r@ == self.json(),
    {
        let mut result: Vec<u8> = Vec::new();
        self.write_json(&mut result);
        assert(result@ =~= self.json());
        result
    }
}

/// Appends `"Expires":"<first 19 bytes of rfc3339>"`.
fn inject_expires(out: &mut Vec<u8>, rfc3339: &[u8])
    ensures
        final(out)@ == old(out)@ + expires_field(rfc3339@),
{
    out.push(34u8);
    let key = expires_name_bytes();
    push_range(out, key.as_slice(), 0, key.len());
    out.push(34u8);
    out.push(58u8);
    out.push(34u8);
    let cut: usize = if rfc3339.len() > 19 {
        19
    } else {
        rfc3339.len()
    };
    push_range(out, rfc3339, 0, cut);
    out.push(34u8);
    proof {
        assert(key@.subrange(0, key@.len() as int) =~= expires_name());
        if rfc3339@.len() > 19 {
            assert(rfc3339@.subrange(0, 19) =~= rfc3339@.take(19));
        } else {
            assert(rfc3339@.subrange(0, cut as int) =~= rfc3339@);
        }
        assert(out@ =~= old(out)@ + expires_field(rfc3339@));
    }
}

} // verus!
