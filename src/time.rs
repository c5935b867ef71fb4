use vstd::prelude::*;

verus! {

/// A moment in time, as microseconds since the Unix epoch (UTC).
#[derive(Clone, Copy, Debug, PartialEq, Eq, Structural)]
pub struct DateTimeAsMicroseconds {
    pub unix_microseconds: i64,
}

impl DateTimeAsMicroseconds {
    pub fn new(unix_microseconds: i64) -> (r: Self)
        ensures
            r.unix_microseconds == unix_microseconds,
    {
        Self { unix_microseconds }
    }
}

} // verus!
