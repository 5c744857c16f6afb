//! What a check reports while it runs: progress data, and the discoveries at the end.

use crate::checker::{DiscoveryClassification, Path};
use crate::util::text::{decimal, u64_decimal};
use std::time::Duration;
use vstd::prelude::*;

verus! {

/// The data sent during a report event.
pub struct ReportData {
    /// The total number of states.
    pub total_states: usize,
    /// The number of unique states found.
    pub unique_states: usize,
    /// Maximum depth explored.
    pub max_depth: usize,
    /// The number of successors of each state expanded.
    pub out_degrees: Vec<usize>,
    /// The number of predecessors of each state generated.
    pub in_degrees: Vec<usize>,
    /// The current duration checking has been running for.
    pub duration: Duration,
    /// Whether checking is done.
    pub done: bool,
}

/// A discovery found during the checking.
pub struct ReportDiscovery<State, Action> {
    /// The path that led to the discovery.
    pub path: Path<State, Action>,
    /// The classification of the path.
    pub classification: DiscoveryClassification,
}

/// The whole seconds that a duration holds, as std's `Duration::as_secs` gives them.
pub uninterp spec fn whole_secs(d: Duration) -> u64;

/// std's `Duration::as_secs`: the number of whole seconds of `d`, which depends on `d` alone.
#[verifier::external_body]
fn duration_secs(d: &Duration) -> (r: u64)
    ensures
        r == whole_secs(*d),
{
    d.as_secs()
}

/// The sum of `degrees`.
pub open spec fn degree_sum(degrees: Seq<usize>) -> int
    decreases degrees.len(),
{
    if degrees.len() == 0 {
        0
    } else {
        degree_sum(degrees.drop_last()) + degrees.last()
    }
}

/// The text of the average of `degrees`: `0` if there are none, the decimal of the average where
/// it is whole, and otherwise `fraction`, the text of the fractional average (which a caller
/// renders, since this library holds no floating-point number).
pub open spec fn average_text(degrees: Seq<usize>, fraction: Seq<char>) -> Seq<char> {
    if degrees.len() == 0 {
        seq!['0']
    } else if degree_sum(degrees) % (degrees.len() as int) == 0 {
        decimal((degree_sum(degrees) / (degrees.len() as int)) as nat)
    } else {
        fraction
    }
}

/// The line that reports `data`: `Done. states=.., unique=.., depth=.., avg out degree=..,
/// avg in degree=.., sec=..` once checking is done, and the same without the seconds before.
/// `out_fraction` and `in_fraction` are the texts of the averages where they are not whole.
pub open spec fn report_text(data: ReportData, out_fraction: Seq<char>, in_fraction: Seq<char>) -> Seq<char> {
    let counts = "states="@ + decimal(data.total_states as nat) + ", unique="@ + decimal(
        data.unique_states as nat,
    ) + ", depth="@ + decimal(data.max_depth as nat) + ", avg out degree="@ + average_text(
        data.out_degrees@,
        out_fraction,
    ) + ", avg in degree="@ + average_text(data.in_degrees@, in_fraction);
    if data.done {
        "Done. "@ + counts + ", sec="@ + decimal(whole_secs(data.duration) as nat)
    } else {
        "Checking. "@ + counts
    }
}

/// The sum of `degrees` and whether their average is whole; the average when it is.
fn average_of(degrees: &Vec<usize>) -> (r: (bool, u64))
    ensures
        degrees@.len() == 0 ==> r.0 && r.1 == 0,
        degrees@.len() > 0 ==> (r.0 <==> degree_sum(degrees@) % (degrees@.len() as int) == 0),
        degrees@.len() > 0 && r.0 ==> r.1 == degree_sum(degrees@) / (degrees@.len() as int),
{
    let n = degrees.len();
    if n == 0 {
        return (true, 0);
    }
    let mut sum: u128 = 0;
    let mut i: usize = 0;
    while i < n
        invariant
            n == degrees@.len(),
            i <= n,
            sum == degree_sum(degrees@.take(i as int)),
            sum <= i * (usize::MAX as int),
        decreases n - i,
    {
        proof {
            assert(degrees@.take(i + 1).drop_last() =~= degrees@.take(i as int));
            assert((i + 1) * (usize::MAX as int) == i * (usize::MAX as int) + usize::MAX) by (nonlinear_arith);
            assert(i * (usize::MAX as int) <= 0x1_0000_0000_0000_0000 * 0x1_0000_0000_0000_0000 - 0x1_0000_0000_0000_0000) by (nonlinear_arith)
                requires
                    i < n,
                    n <= usize::MAX,
                    usize::MAX < 0x1_0000_0000_0000_0000,
            ;
        }
        sum = sum + degrees[i] as u128;
        i = i + 1;
    }
    proof {
        assert(degrees@.take(n as int) =~= degrees@);
    }
    let len = n as u128;
    let whole = sum % len == 0;
    let avg = sum / len;
    proof {
        assert(avg <= usize::MAX) by (nonlinear_arith)
            requires
                avg == sum / len,
                sum <= len * (usize::MAX as int),
                len > 0,
        ;
    }
    (whole, avg as u64)
}

/// The text of the average of `degrees`, `fraction` where it is not whole.
fn average_string(degrees: &Vec<usize>, fraction: &str) -> (r: String)
    ensures
        r@ == average_text(degrees@, fraction@),
{
    let (whole, avg) = average_of(degrees);
    proof {
        assert(decimal(0) == seq!['0']);
    }
    if whole {
        u64_decimal(avg)
    } else {
        fraction.to_string()
    }
}

impl ReportData {
    /// The line that reports this data (without a line break); `out_fraction` and
    /// `in_fraction` are the texts of the average degrees where they are not whole.
    pub fn report_line(&self, out_fraction: &str, in_fraction: &str) -> (r: String)
        ensures
            r@ == report_text(*self, out_fraction@, in_fraction@),
    {
        let mut text = if self.done {
            String::from_str("Done. ")
        } else {
            String::from_str("Checking. ")
        };
        text.append("states=");
        text.append(u64_decimal(self.total_states as u64).as_str());
        text.append(", unique=");
        text.append(u64_decimal(self.unique_states as u64).as_str());
        text.append(", depth=");
        text.append(u64_decimal(self.max_depth as u64).as_str());
        text.append(", avg out degree=");
        text.append(average_string(&self.out_degrees, out_fraction).as_str());
        text.append(", avg in degree=");
        text.append(average_string(&self.in_degrees, in_fraction).as_str());
        if self.done {
            text.append(", sec=");
            text.append(u64_decimal(duration_secs(&self.duration)).as_str());
        }
        proof {
            reveal_strlit("Done. ");
            reveal_strlit("Checking. ");
            reveal_strlit("states=");
            reveal_strlit(", unique=");
            reveal_strlit(", depth=");
            reveal_strlit(", avg out degree=");
            reveal_strlit(", avg in degree=");
            reveal_strlit(", sec=");
        }
        assert(text@ =~= report_text(*self, out_fraction@, in_fraction@));
        text
    }
}

} // verus!
