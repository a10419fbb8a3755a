//! The ways in which a search can fail.

use vstd::prelude::*;
use vstd::string::StringExecFns;
use crate::text::{append_decimal, append_padded, decimal_digits, padded_digits};

verus! {

#[derive(Debug, Clone, Copy, PartialEq, Eq, Structural)]
pub enum SubsetError {
    /// The search ended without a full subset.
    NoValidSubset,
    /// A subset missed the tolerance band; the payload is its accuracy in
    /// thousandths of a percent of the target.
    OutsideTolerance(u64),
    /// `needed` cars were still to be chosen and only `available` were left,
    /// with nothing to reuse.
    InsufficientCandidates(usize, usize),
    /// No choice of the remaining cars can bring the sum to the target.
    TargetUnreachable { target: u32, current_sum: u32, min_possible: u32, max_possible: u32 },
    /// Reuse was asked for and no car had been selected before.
    NoPreviouslySelectedAvailable,
    /// Even with the cars of earlier subsets there were too few candidates.
    PreviouslySelectedInsufficient { needed: usize, available: usize },
    /// Fewer subsets than required were found within the time budget.
    NotEnoughSuccessfulRuns { required: usize, found: usize },
}

/// The part of a percentage behind the point, for a number of thousandths:
/// nothing for none, and otherwise a point and the digits, without zeros at
/// the end.
pub open spec fn fraction_text(thousandths: nat) -> Seq<char> {
    if thousandths == 0 {
        Seq::empty()
    } else if thousandths % 100 == 0 {
        seq!['.'] + padded_digits(thousandths / 100, 1)
    } else if thousandths % 10 == 0 {
        seq!['.'] + padded_digits(thousandths / 10, 2)
    } else {
        seq!['.'] + padded_digits(thousandths, 3)
    }
}

/// A number of thousandths of a percent as a percentage.
pub open spec fn percent_text(millipercent: nat) -> Seq<char> {
    decimal_digits(millipercent / 1000) + fraction_text(millipercent % 1000)
}

/// What an error says.
pub open spec fn error_text(error: SubsetError) -> Seq<char> {
    match error {
        SubsetError::NoValidSubset => "Failed to find a valid subset"@,
        SubsetError::OutsideTolerance(accuracy) => "Found subset is outside tolerance: "@
            + percent_text(accuracy as nat) + "% of target (acceptable range: 99-101%)"@,
        SubsetError::InsufficientCandidates(needed, available) => "Insufficient candidates: needed "@
            + decimal_digits(needed as nat) + ", but only "@ + decimal_digits(available as nat)
            + " available"@,
        SubsetError::TargetUnreachable { target, current_sum, min_possible, max_possible } => "Target "@
            + decimal_digits(target as nat) + " is unreachable. Current sum: "@ + decimal_digits(
            current_sum as nat,
        ) + ". Possible range: ["@ + decimal_digits((current_sum + min_possible) as nat) + " to "@
            + decimal_digits((current_sum + max_possible) as nat) + "]"@,
        SubsetError::NoPreviouslySelectedAvailable => "No previously selected numbers available to use when needed"@,
        SubsetError::PreviouslySelectedInsufficient { needed, available } => "Even with previously selected numbers, still insufficient: needed "@
            + decimal_digits(needed as nat) + ", but only "@ + decimal_digits(available as nat)
            + " available"@,
        SubsetError::NotEnoughSuccessfulRuns { required, found } => "Only "@ + decimal_digits(
            found as nat,
        ) + "/"@ + decimal_digits(required as nat) + " satisfactory subsets found within tolerance"@,
    }
}

/// Appends a number of thousandths of a percent as a percentage.
fn append_percent(out: &mut String, millipercent: u64)
    ensures
        final(out)@ == old(out)@ + percent_text(millipercent as nat),
{
    let ghost before = out@;
    let thousandths = millipercent % 1000;
    append_decimal(out, millipercent / 1000);
    proof {
        reveal_strlit(".");
    }
    if thousandths == 0 {
        assert(out@ =~= before + percent_text(millipercent as nat));
    } else if thousandths % 100 == 0 {
        out.append(".");
        append_padded(out, thousandths / 100, 1);
        assert(out@ =~= before + percent_text(millipercent as nat));
    } else if thousandths % 10 == 0 {
        out.append(".");
        append_padded(out, thousandths / 10, 2);
        assert(out@ =~= before + percent_text(millipercent as nat));
    } else {
        out.append(".");
        append_padded(out, thousandths, 3);
        assert(out@ =~= before + percent_text(millipercent as nat));
    }
}

impl SubsetError {
    /// The error in words.
    pub fn message(&self) -> (text: String)
        ensures
            text@ == error_text(*self),
    {
        match *self {
            SubsetError::NoValidSubset => String::from_str("Failed to find a valid subset"),
            SubsetError::OutsideTolerance(accuracy) => {
                let mut text = String::from_str("Found subset is outside tolerance: ");
                append_percent(&mut text, accuracy);
                text.append("% of target (acceptable range: 99-101%)");
                text
            },
            SubsetError::InsufficientCandidates(needed, available) => {
                let mut text = String::from_str("Insufficient candidates: needed ");
                append_decimal(&mut text, needed as u64);
                text.append(", but only ");
                append_decimal(&mut text, available as u64);
                text.append(" available");
                text
            },
            SubsetError::TargetUnreachable { target, current_sum, min_possible, max_possible } => {
                let mut text = String::from_str("Target ");
                append_decimal(&mut text, target as u64);
                text.append(" is unreachable. Current sum: ");
                append_decimal(&mut text, current_sum as u64);
                text.append(". Possible range: [");
                append_decimal(&mut text, current_sum as u64 + min_possible as u64);
                text.append(" to ");
                append_decimal(&mut text, current_sum as u64 + max_possible as u64);
                text.append("]");
                text
            },
            SubsetError::NoPreviouslySelectedAvailable => String::from_str(
                "No previously selected numbers available to use when needed",
            ),
            SubsetError::PreviouslySelectedInsufficient { needed, available } => {
                let mut text = String::from_str(
                    "Even with previously selected numbers, still insufficient: needed ",
                );
                append_decimal(&mut text, needed as u64);
                text.append(", but only ");
                append_decimal(&mut text, available as u64);
                text.append(" available");
                text
            },
            SubsetError::NotEnoughSuccessfulRuns { required, found } => {
                let mut text = String::from_str("Only ");
                append_decimal(&mut text, found as u64);
                text.append("/");
                append_decimal(&mut text, required as u64);
                text.append(" satisfactory subsets found within tolerance");
                text
            },
        }
    }
}

} // verus!
