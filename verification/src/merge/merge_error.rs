use vstd::prelude::*;
use vstd::string::*;

verus! {

/// Why a merge could not be made.
#[derive(Debug, PartialEq, Eq)]
pub enum MergeError {
    /// The nodes to merge are not all leaves and not all interior nodes.
    MergingTerminalWithNonTerminal,
    /// The left and the right node are of the two kinds given.
    NodesWithDifferentKinds(String, String),
}

/// A `MergeError` as a mathematical value.
pub enum MergeFault {
    MergingTerminalWithNonTerminal,
    NodesWithDifferentKinds(Seq<char>, Seq<char>),
}

impl View for MergeError {
    type V = MergeFault;

    open spec fn view(&self) -> MergeFault {
        match self {
            MergeError::MergingTerminalWithNonTerminal => MergeFault::MergingTerminalWithNonTerminal,
            MergeError::NodesWithDifferentKinds(left, right) => MergeFault::NodesWithDifferentKinds(
                left@,
                right@,
            ),
        }
    }
}

/// The message of a fault: a fixed sentence, followed for two kinds by the
/// kinds, the left one first.
pub open spec fn message_of(fault: MergeFault) -> Seq<char> {
    match fault {
        MergeFault::MergingTerminalWithNonTerminal => "Merging terminals with non-terminals is not supported"@,
        MergeFault::NodesWithDifferentKinds(left, right) => "Tried to merge nodes of different kinds: "@
            + left + " and "@ + right,
    }
}

impl MergeError {
    /// The message of the error.
    pub fn to_string(&self) -> (text: String)
        ensures
            text@ == message_of(self@),
    {
        match self {
            MergeError::MergingTerminalWithNonTerminal => String::from_str(
                "Merging terminals with non-terminals is not supported",
            ),
            MergeError::NodesWithDifferentKinds(left, right) => {
                let mut text = String::from_str("Tried to merge nodes of different kinds: ");
                text.append(left.as_str());
                text.append(" and ");
                text.append(right.as_str());
                text
            },
        }
    }
}

} // verus!
