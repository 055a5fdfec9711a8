//! The query fragment that sends its input to every node.

use vstd::prelude::*;

verus! {

/// How the rows that a fragment produces are spread over the nodes.
#[derive(Clone, Copy, Debug, PartialEq, Eq, Structural)]
pub enum PartitionState {
    NotPartition,
    Random,
    HashPartition,
    Broadcast,
}

/// Why a fragment cannot be planned.
#[derive(Clone, Copy, Debug, PartialEq, Eq, Structural)]
pub enum FragmentError {
    /// The plan needs something that is not supported yet.
    Unimplemented,
    /// The input fragment failed.
    Input,
}

/// A fragment that broadcasts the rows of its input.
#[derive(Debug, PartialEq, Eq)]
pub struct BroadcastQueryFragment {
    input: Result<PartitionState, FragmentError>,
}

impl BroadcastQueryFragment {
    /// How the input of the fragment spreads its rows, or why the input failed.
    pub closed spec fn input(&self) -> Result<PartitionState, FragmentError> {
        self.input
    }

    /// The fragment over an input that spreads its rows as `input` says.
    pub fn create(input: Result<PartitionState, FragmentError>) -> (r: Self)
        ensures
            r.input() == input,
    {
        BroadcastQueryFragment { input }
    }

    /// How the fragment spreads its rows: to every node, where its input is not
    /// partitioned. A partitioned input is not supported; a failed input fails the
    /// fragment in the same way.
    pub fn get_out_partition(&self) -> (r: Result<PartitionState, FragmentError>)
        ensures
            r == match self.input() {
                Err(e) => Err::<PartitionState, FragmentError>(e),
                Ok(PartitionState::NotPartition) => Ok(PartitionState::Broadcast),
                Ok(_) => Err(FragmentError::Unimplemented),
            },
    {
        match self.input {
            Err(e) => Err(e),
            Ok(state) => match state {
                PartitionState::NotPartition => Ok(PartitionState::Broadcast),
                _ => Err(FragmentError::Unimplemented),
            },
        }
    }

    /// Planning the fragment's actions is not supported yet.
    pub fn finalize(&self) -> (r: Result<(), FragmentError>)
        ensures
            r == Err::<(), FragmentError>(FragmentError::Unimplemented),
    {
        Err(FragmentError::Unimplemented)
    }

    /// Rewriting the fragment's remote plan is not supported yet.
    pub fn rewrite_remote_plan(&self) -> (r: Result<(), FragmentError>)
        ensures
            r == Err::<(), FragmentError>(FragmentError::Unimplemented),
    {
        Err(FragmentError::Unimplemented)
    }
}

} // verus!
