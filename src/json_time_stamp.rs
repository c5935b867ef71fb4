use vstd::prelude::*;

use crate::keys::copy_range;
use crate::time::DateTimeAsMicroseconds;

verus! {

/// A byte that is not a decimal digit.
pub open spec fn is_not_digit(b: u8) -> bool {
    b < 48u8 || b > 57u8
}

/// Past its first 24 bytes, the position where the digits of a time text stop, or its length.
pub open spec fn end_of_the_string(src: Seq<u8>) -> int {
    if exists|i: int| 24 <= i < src.len() && is_not_digit(#[trigger] src[i]) {
        choose|i: int|
            24 <= i < src.len() && is_not_digit(#[trigger] src[i]) && forall|j: int|
                24 <= j < i ==> !is_not_digit(#[trigger] src[j])
    } else {
        src.len() as int
    }
}

/// The time text of a document: a moment and its RFC 3339 text, cut where its fraction of a
/// second ends.
pub struct JsonTimeStamp {
    pub str_value: Vec<u8>,
    pub date_time: DateTimeAsMicroseconds,
}

/// Past its first 24 bytes, the position where the digits of a time text stop, or its length.
pub fn find_end_of_the_string(src: &[u8]) -> (r: usize)
    ensures
        r as int == end_of_the_string(src@),
        r <= src@.len(),
{
    let mut i: usize = 24;
    while i < src.len()
        invariant
            24 <= i,
            forall|j: int| 24 <= j < i && j < src@.len() ==> !is_not_digit(#[trigger] src@[j]),
        decreases src@.len() - i,
    {
        let b = src[i];
        if b < 48u8 || b > 57u8 {
            proof {
                let k = choose|k: int|
                    24 <= k < src@.len() && is_not_digit(#[trigger] src@[k]) && forall|j: int|
                        24 <= j < k ==> !is_not_digit(#[trigger] src@[j]);
                if k < i {
                    assert(!is_not_digit(src@[k]));
                } else if k > i {
                    assert(!is_not_digit(src@[i as int]));
                }
            }
            return i;
        }
        i = i + 1;
    }
    proof {
        if exists|k: int| 24 <= k < src@.len() && is_not_digit(#[trigger] src@[k]) {
            let k = choose|k: int| 24 <= k < src@.len() && is_not_digit(#[trigger] src@[k]);
            assert(!is_not_digit(src@[k]));
        }
    }
    src.len()
}

impl JsonTimeStamp {
    pub open spec fn as_slice_view(&self) -> Seq<u8> {
        self.str_value@
    }

    /// A time stamp of `date_time`, whose RFC 3339 text is `rfc3339`.
    pub fn from_date_time(date_time: DateTimeAsMicroseconds, rfc3339: &[u8]) -> (r: Self)
        ensures
            r.date_time == date_time,
            r.as_slice_view() == rfc3339@.take(end_of_the_string(rfc3339@)),
    {
        let index = find_end_of_the_string(rfc3339);
        let str_value = copy_range(rfc3339, 0, index);
        assert(str_value@ =~= rfc3339@.take(index as int));
        JsonTimeStamp { str_value, date_time }
    }

    /// The text, cut where the digits of its fraction of a second end.
    pub fn as_slice(&self) -> (r: &[u8])
        ensures
            r@ == self.as_slice_view(),
    {
        self.str_value.as_slice()
    }
}

} // verus!
