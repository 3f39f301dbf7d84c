//! Splitting one input line into an entity name and a measurement.

use vstd::prelude::*;

use crate::decimal::Decimal;
use crate::decimal::all_value_bytes;
use crate::decimal::dec_scaled;
use crate::decimal::dec_wf;
use crate::decimal::decimal_of;
use crate::decimal::first_at;
use crate::decimal::lemma_first_at;
use crate::decimal::parse_decimal;
use crate::decimal::parses;
use crate::RunError;

verus! {

/// One parsed input line: an entity name and its measurement. Produced
/// by the parser, consumed by an aggregation step.
#[derive(Clone, Debug)]
pub struct Record {
    pub name: Vec<u8>,
    pub value: Decimal,
}

/// The line has a `;` separator (59).
pub open spec fn has_sep(line: Seq<u8>) -> bool {
    first_at(line, 59) < line.len()
}

/// Everything before the first `;`.
pub open spec fn name_of(line: Seq<u8>) -> Seq<u8> {
    line.take(first_at(line, 59))
}

/// Everything after the first `;`.
pub open spec fn value_bytes_of(line: Seq<u8>) -> Seq<u8> {
    line.skip(first_at(line, 59) + 1)
}

/// The line splits on `;` and its value part parses.
pub open spec fn line_ok(line: Seq<u8>) -> bool {
    has_sep(line) && parses(value_bytes_of(line))
}

/// The scaled value a good line denotes.
pub open spec fn line_value(line: Seq<u8>) -> int {
    dec_scaled(decimal_of(value_bytes_of(line)))
}

/// The error a bad line is rejected with.
pub open spec fn line_error(line: Seq<u8>) -> RunError {
    if !has_sep(line) {
        RunError::MalformedRecord
    } else if !all_value_bytes(value_bytes_of(line)) {
        RunError::InvalidCharacter
    } else {
        RunError::ValueOutOfRange
    }
}

pub proof fn lemma_first_at_is(s: Seq<u8>, b: u8, k: int)
    requires
        0 <= k <= s.len(),
        forall|i: int| 0 <= i < k ==> s[i] != b,
        k < s.len() ==> s[k] == b,
    ensures
        first_at(s, b) == k,
    decreases s.len(),
{
    if s.len() > 0 {
        if k == 0 {
            if s.first() != b {
                lemma_first_at(s, b);
            }
        } else {
            assert(s[0] != b);
            assert forall|i: int| 0 <= i < k - 1 implies s.drop_first()[i] != b by {
                assert(s.drop_first()[i] == s[i + 1]);
            }
            assert(k - 1 < s.drop_first().len() ==> s.drop_first()[k - 1] == b);
            lemma_first_at_is(s.drop_first(), b, k - 1);
        }
    }
}

/// Split one line on the first `;` and parse the value part.
///
/// Fails with `MalformedRecord` when no separator is present, and with
/// the decimal parser's error when the value part is bad.
pub fn parse_record(line: &[u8]) -> (r: Result<Record, RunError>)
    ensures
        r is Ok <==> line_ok(line@),
        r matches Ok(rec) ==> rec.name@ == name_of(line@) && rec.value == decimal_of(
            value_bytes_of(line@),
        ) && dec_wf(rec.value),
        r is Err ==> r == Err::<Record, RunError>(line_error(line@)),
{
    let n = line.len();
    let mut i: usize = 0;
    while i < n && line[i] != 59
        invariant
            0 <= i <= n,
            n == line@.len(),
            forall|j: int| 0 <= j < i ==> line@[j] != 59,
        decreases n - i,
    {
        i = i + 1;
    }
    proof {
        lemma_first_at_is(line@, 59, i as int);
    }
    if i == n {
        return Err(RunError::MalformedRecord);
    }
    let name_slice = vstd::slice::slice_subrange(line, 0, i);
    let name = vstd::slice::slice_to_vec(name_slice);
    let value_slice = vstd::slice::slice_subrange(line, i + 1, n);
    proof {
        assert(value_slice@ =~= value_bytes_of(line@));
        assert(name@ =~= name_of(line@));
    }
    match parse_decimal(value_slice) {
        Ok(value) => Ok(Record { name, value }),
        Err(e) => Err(e),
    }
}

} // verus!
