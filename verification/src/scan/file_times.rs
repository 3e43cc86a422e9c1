use vstd::prelude::*;

verus! {

/// Timestamps of one filesystem entry, each a signed count of nanoseconds
/// since the Unix epoch: negative values name instants before the epoch,
/// `None` an instant the platform could not supply.  Plain integers keep
/// the record portable and serializable.
#[derive(Clone, Copy, Debug)]
pub struct FileTimes {
    pub created: Option<i64>,
    pub modified: Option<i64>,
    pub accessed: Option<i64>,
}

impl Default for FileTimes {
    /// A record with no timestamp known.
    fn default() -> (r: Self)
        ensures
            r.created is None,
            r.modified is None,
            r.accessed is None,
    {
        FileTimes { created: None, modified: None, accessed: None }
    }
}

/// Narrows a nanosecond count to `i64`, the widest signed count the
/// record stores; counts beyond `i64::MAX` are unrepresentable.
pub fn u128_to_i64(num: u128) -> (r: Option<i64>)
    ensures
        num <= i64::MAX ==> r == Some(num as i64),
        num > i64::MAX ==> r is None,
{
    match num <= i64::MAX as u128 {
        true => Some(num as i64),
        false => None,
    }
}

/// Turns a distance from the Unix epoch — its direction and its magnitude
/// in nanoseconds — into the signed count a timestamp stores, or `None`
/// when the magnitude does not fit.
pub fn nanos(before_epoch: bool, magnitude: u128) -> (r: Option<i64>)
    ensures
        magnitude > i64::MAX ==> r is None,
        magnitude <= i64::MAX && !before_epoch ==> r == Some(magnitude as i64),
        magnitude <= i64::MAX && before_epoch ==> r == Some(-(magnitude as i64) as i64),
{
    match u128_to_i64(magnitude) {
        None => None,
        Some(num) => {
            if before_epoch {
                Some(-num)
            } else {
                Some(num)
            }
        }
    }
}

} // verus!
