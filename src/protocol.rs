//! The wire protocol of the network front end: command bytes and
//! length-prefixed fields.
use vstd::prelude::*;
use crate::error::{Error, PairComponent};
use crate::segment::{be32, U32_MAX_LEN};

verus! {

/// A request's command.
#[derive(Debug, Clone, Copy, PartialEq, Eq, Structural)]
pub enum Command {
    Get,
    Put,
    Delete,
}

impl Command {
    /// The command that a request's first byte names: 1 for get, 2 for put (a set),
    /// 3 for delete.
    pub fn from_u8_opt(indicator: u8) -> (r: Option<Self>)
        ensures
            indicator == 1 <==> r == Some(Command::Get),
            indicator == 2 <==> r == Some(Command::Put),
            indicator == 3 <==> r == Some(Command::Delete),
            r is None <==> !(1 <= indicator <= 3),
    {
        match indicator {
            1 => Some(Command::Get),
            2 => Some(Command::Put),
            3 => Some(Command::Delete),
            _ => None,
        }
    }
}

/// The response byte of a successful set or delete, and of a get that found a
/// value.
pub const OUTCOME_SUCCESS: u8 = 1;

/// The response byte of a failed request.
pub const OUTCOME_FAILURE: u8 = 0;

/// The response byte of a get that found no value.
pub const OUTCOME_NOT_FOUND: u8 = 2;

/// Appends `data` to `out` as a field: its length as a big-endian `u32`, then
/// its bytes. Fails, appending nothing, where the length does not fit.
pub fn write_data(out: &mut Vec<u8>, data: &[u8]) -> (r: Result<(), Error>)
    ensures
        r is Ok <==> data@.len() <= U32_MAX_LEN,
        r is Ok ==> final(out)@ == old(out)@ + be32(data@.len() as u32) + data@,
        r is Err ==> final(out)@ == old(out)@ && r == Err::<(), Error>(
            Error::TooLarge(PairComponent::Value, data@.len() as usize, U32_MAX_LEN),
        ),
{
    let len = data.len();
    if len > U32_MAX_LEN {
        return Err(Error::TooLarge(PairComponent::Value, len, U32_MAX_LEN));
    }
    let ghost start = out@;
    crate::segment::push_field(out, data);
    assert(out@ =~= start + be32(len as u32) + data@);
    Ok(())
}

} // verus!
