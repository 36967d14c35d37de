use vstd::prelude::*;
use vstd::string::StringExecFns;
use crate::bbuff::absbuff::ABuffError;
use super::ids::FileOffset;
use super::limit::Limit;
use crate::text::spec_decimal;

verus! {

/// What goes wrong when a block is read or written.
#[derive(Debug, Clone)]
pub enum BlockErr {
    /// A failure described in words.
    Generic(String),
    /// The store could not be read or written.
    IO { message: String, os_error: Option<i32> },
    /// The flat buffer refused the operation.
    AbsBuff(ABuffError),
    /// A head declares a size below the smallest head.
    BlockHeaderToSmall { actual: u64, min_size: u64 },
    /// The data of a block ends early.
    BlockDataTruncated { expect_data_size: u64, reads_data_size: u64 },
    /// The bytes of a head do not decode.
    BlockHeadReadFail { head_data: Vec<u8>, error: String },
    /// A tail is looked for before the first position where one can end.
    PositionToSmall { min_position: FileOffset, actual: FileOffset },
    /// The store ended before the bytes expected.
    NoData { reads: u64, expect: u64 },
    /// The bytes before a position are not a tail.
    TailMarkerMismatched { tail_data: [u8; 8] },
    /// A tail points before the start of the store.
    TailPointerOuside { pointer: i128 },
    /// A size exceeds a limit.
    Limit { message: String, limit: u64, target: u64 },
}

impl BlockErr {
    pub fn generic(message: &str) -> (r: Self)
        ensures
            r matches BlockErr::Generic(m) && m@ == message@,
    {
        BlockErr::Generic(String::from_str(message))
    }

    pub fn tail_position_to_small(min_pos: u64, actual_pos: u64) -> (r: Self)
        ensures
            r == (BlockErr::PositionToSmall {
                min_position: FileOffset(min_pos),
                actual: FileOffset(actual_pos),
            }),
    {
        BlockErr::PositionToSmall { min_position: FileOffset::new(min_pos), actual: FileOffset::new(actual_pos) }
    }

    pub fn no_data(reads: u64, expect: u64) -> (r: Self)
        ensures
            r == (BlockErr::NoData { reads, expect }),
    {
        BlockErr::NoData { reads, expect }
    }

    /// The error of an operation refused by a limit; its message names the
    /// operation, the limit and the size asked for.
    pub fn limit(operation_name: &str, limit: Limit, target: u64) -> (r: Self)
        ensures
            r matches BlockErr::Limit { limit: l, target: t, message } && l == limit.0 && t == target && message@
                == spec_limit_message(operation_name@, limit.0, target),
    {
        proof {
            reveal_strlit("can't execute ");
            reveal_strlit(" by limit size, current limit ");
            reveal_strlit(", target size ");
        }
        let mut message = String::from_str("can't execute ");
        message.append(operation_name);
        message.append(" by limit size, current limit ");
        let l = crate::text::u128_to_decimal(limit.0 as u128);
        message.append(l.as_str());
        message.append(", target size ");
        let t = crate::text::u128_to_decimal(target as u128);
        message.append(t.as_str());
        BlockErr::Limit { message, limit: limit.0, target }
    }
}

/// The message of an operation refused by a limit.
pub open spec fn spec_limit_message(operation: Seq<char>, limit: u64, target: u64) -> Seq<char> {
    "can't execute "@ + operation + " by limit size, current limit "@ + spec_decimal(limit as nat)
        + ", target size "@ + spec_decimal(target as nat)
}

impl From<ABuffError> for BlockErr {
    fn from(value: ABuffError) -> (r: Self) {
        BlockErr::AbsBuff(value)
    }
}

impl vstd::std_specs::convert::FromSpecImpl<ABuffError> for BlockErr {
    open spec fn obeys_from_spec() -> bool {
        true
    }

    open spec fn from_spec(v: ABuffError) -> Self {
        BlockErr::AbsBuff(v)
    }
}

} // verus!
