//! The operations as a line of numbers names them, and what each does to a forest.
use vstd::prelude::*;
use crate::model::Forest;
use crate::union_find::UnionFind;

verus! {

/// One operation on a forest. Elements are named by their identifiers.
#[derive(Clone, Copy, Debug, PartialEq, Eq, Structural)]
pub enum Command {
    /// Merge the set of `q` into the set of `p`.
    Union { p: usize, q: usize },
    /// Move the single element `p` into the set of `q`.
    Move { p: usize, q: usize },
    /// Report the size and the sum of the set of `p`.
    Query { p: usize },
    /// Do nothing.
    Skip,
}

/// Why a line of numbers names no operation.
#[derive(Clone, Copy, Debug, PartialEq, Eq, Structural)]
pub enum Fault {
    /// The line ends before the operation has the elements it works on.
    MissingArgument,
    /// A number names no element of the forest.
    InvalidArgument,
}

/// Whether `number` names an element of a forest of `n` elements. Lines count
/// elements from one.
pub open spec fn names_element(number: usize, n: usize) -> bool {
    1 <= number <= n
}

/// What a line of numbers asks for, in a forest of `n` elements: the first
/// number selects the operation, the next one or two name its elements.
/// Further numbers are ignored, and so is a line with an unknown selector.
pub open spec fn decoded(parameters: Seq<usize>, n: usize) -> Result<Command, Fault> {
    if parameters.len() == 0 {
        Err(Fault::MissingArgument)
    } else if parameters[0] == 1 || parameters[0] == 2 {
        if parameters.len() < 3 {
            Err(Fault::MissingArgument)
        } else if !names_element(parameters[1], n) || !names_element(parameters[2], n) {
            Err(Fault::InvalidArgument)
        } else if parameters[0] == 1 {
            Ok(Command::Union { p: (parameters[1] - 1) as usize, q: (parameters[2] - 1) as usize })
        } else {
            Ok(Command::Move { p: (parameters[1] - 1) as usize, q: (parameters[2] - 1) as usize })
        }
    } else if parameters[0] == 3 {
        if parameters.len() < 2 {
            Err(Fault::MissingArgument)
        } else if !names_element(parameters[1], n) {
            Err(Fault::InvalidArgument)
        } else {
            Ok(Command::Query { p: (parameters[1] - 1) as usize })
        }
    } else {
        Ok(Command::Skip)
    }
}

impl Command {
    /// Whether the elements of the operation lie in a forest of `n` elements.
    pub open spec fn fits(self, n: nat) -> bool {
        match self {
            Command::Union { p, q } => p < n && q < n,
            Command::Move { p, q } => p < n && q < n,
            Command::Query { p } => p < n,
            Command::Skip => true,
        }
    }

    /// The forest that the operation makes of `f`.
    pub open spec fn effect(self, f: Forest) -> Forest {
        match self {
            Command::Union { p, q } => f.merged(p as int, q as int),
            Command::Move { p, q } => f.moved(p as int, q as int),
            Command::Query { p } => f,
            Command::Skip => f,
        }
    }

    /// What the operation reports of `f`: a query reports size and sum.
    pub open spec fn answer(self, f: Forest) -> Option<(nat, nat)> {
        match self {
            Command::Query { p } => Some((f.set_size(p as int), f.set_sum(p as int))),
            _ => None,
        }
    }
}

/// Whether the pair of machine numbers holds the pair of numbers.
pub open spec fn reports(answer: Option<(u64, u64)>, wanted: Option<(nat, nat)>) -> bool {
    match wanted {
        Some((size, sum)) => answer == Some((size as u64, sum as u64)) && size <= u64::MAX && sum
            <= u64::MAX,
        None => answer.is_none(),
    }
}

/// Tells which operation a line of numbers asks for in a forest of `n` elements.
pub fn decode(parameters: &Vec<usize>, n: usize) -> (result: Result<Command, Fault>)
    ensures
        result == decoded(parameters@, n),
        result matches Ok(command) ==> command.fits(n as nat),
{
    if parameters.len() == 0 {
        return Err(Fault::MissingArgument);
    }
    let selector = parameters[0];
    if selector == 1 || selector == 2 {
        if parameters.len() < 3 {
            return Err(Fault::MissingArgument);
        }
        let first = parameters[1];
        let second = parameters[2];
        if first < 1 || first > n || second < 1 || second > n {
            return Err(Fault::InvalidArgument);
        }
        if selector == 1 {
            Ok(Command::Union { p: first - 1, q: second - 1 })
        } else {
            Ok(Command::Move { p: first - 1, q: second - 1 })
        }
    } else if selector == 3 {
        if parameters.len() < 2 {
            return Err(Fault::MissingArgument);
        }
        let first = parameters[1];
        if first < 1 || first > n {
            return Err(Fault::InvalidArgument);
        }
        Ok(Command::Query { p: first - 1 })
    } else {
        Ok(Command::Skip)
    }
}

/// Performs one operation on the forest and hands back what it reports.
pub fn run(forest: &mut UnionFind, command: Command) -> (answer: Option<(u64, u64)>)
    requires
        old(forest).wf(),
        command.fits(old(forest)@.len()),
    ensures
        final(forest).wf(),
        final(forest)@ == command.effect(old(forest)@),
        reports(answer, command.answer(old(forest)@)),
{
    match command {
        Command::Union { p, q } => {
            forest.union(p, q);
            None
        },
        Command::Move { p, q } => {
            forest.move_number(p, q);
            None
        },
        Command::Query { p } => Some(forest.size_sum(p)),
        Command::Skip => None,
    }
}

} // verus!
