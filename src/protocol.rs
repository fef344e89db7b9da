use vstd::prelude::*;

verus! {

/// How many patterns a worker is handed at a time.
pub const STD_BLOCK_SIZE: usize = 250;

/// How many blocks' worth of completed patterns trigger a checkpoint.
pub const AUTOSAVE_THRESHOLD: usize = 32;

/// How long a handed-out pattern is reserved for its worker, in milliseconds.
pub const LAST_SENT_TIMEOUT: u128 = 60000;

/// What a worker asks for with the first byte of a connection.
#[derive(PartialEq, Eq, Structural, Debug, Clone, Copy)]
pub enum Operation {
    /// Byte 0: hand me a computation block.
    Request,
    /// Byte 1: here is a computed block.
    Submit,
}

/// A connection that does not follow the protocol.
#[derive(PartialEq, Eq, Structural, Debug, Clone, Copy)]
pub enum ProtocolError {
    /// The first byte names no operation.
    UnknownOperation(u8),
}

/// The operation a byte names.
pub open spec fn operation_of(b: u8) -> Result<Operation, ProtocolError> {
    if b == 0 {
        Ok(Operation::Request)
    } else if b == 1 {
        Ok(Operation::Submit)
    } else {
        Err(ProtocolError::UnknownOperation(b))
    }
}

impl Operation {
    /// Reads the operation byte.
    pub fn from_byte(b: u8) -> (r: Result<Operation, ProtocolError>)
        ensures
            r == operation_of(b),
    {
        if b == 0 {
            Ok(Operation::Request)
        } else if b == 1 {
            Ok(Operation::Submit)
        } else {
            Err(ProtocolError::UnknownOperation(b))
        }
    }

    /// The byte that names the operation.
    pub fn to_byte(&self) -> (b: u8)
        ensures
            operation_of(b) == Ok::<Operation, ProtocolError>(*self),
    {
        match self {
            Operation::Request => 0,
            Operation::Submit => 1,
        }
    }
}

/// A checkpoint is due once more than `threshold` patterns have been
/// completed since the last one, when `saved` were outstanding.
pub fn checkpoint_due(saved: usize, outstanding: usize, threshold: usize) -> (r: bool)
    ensures
        r == (saved > outstanding && saved - outstanding > threshold),
{
    saved > outstanding && saved - outstanding > threshold
}

} // verus!
