//! The checks that stand between a request and an aggregator.

use crate::error::Error;
use vstd::prelude::*;
use vstd::string::*;

verus! {

/// The largest number of values that one batch may hold.
pub const MAX_BATCH_VALUES: usize = 10_000;

/// A request for the statistics of window `k` of a symbol.
#[derive(Debug)]
pub struct StatsRequest {
    pub symbol: String,
    pub k: u32,
}

/// Whether a character is white space.
pub open spec fn is_white_space(c: char) -> bool {
    let code = c as u32;
    ||| 0x09 <= code <= 0x0D
    ||| code == 0x20
    ||| code == 0x85
    ||| code == 0xA0
    ||| code == 0x1680
    ||| 0x2000 <= code <= 0x200A
    ||| code == 0x2028
    ||| code == 0x2029
    ||| code == 0x202F
    ||| code == 0x205F
    ||| code == 0x3000
}

/// Whether a text holds nothing but white space.
pub open spec fn is_blank(text: Seq<char>) -> bool {
    forall|i: int| 0 <= i < text.len() ==> is_white_space(#[trigger] text[i])
}

/// Decides whether a character is white space.
pub fn white_space(c: char) -> (white: bool)
    ensures
        white == is_white_space(c),
{
    let code = c as u32;
    (0x09 <= code && code <= 0x0D) || code == 0x20 || code == 0x85 || code == 0xA0 || code
        == 0x1680 || (0x2000 <= code && code <= 0x200A) || code == 0x2028 || code == 0x2029
        || code == 0x202F || code == 0x205F || code == 0x3000
}

/// Decides whether a text holds nothing but white space.
pub fn blank(text: &str) -> (blank: bool)
    ensures
        blank == is_blank(text@),
{
    let n = text.unicode_len();
    let mut i: usize = 0;
    while i < n
        invariant
            n == text@.len(),
            i <= n,
            forall|j: int| 0 <= j < i ==> is_white_space(#[trigger] text@[j]),
        decreases n - i,
    {
        if !white_space(text.get_char(i)) {
            return false;
        }
        i = i + 1;
    }
    true
}

/// Checks a batch before it reaches an aggregator: a batch of more than
/// `MAX_BATCH_VALUES` values is too large, and otherwise a symbol that is empty
/// or blank is invalid.
pub fn validate_batch(symbol: &str, values: usize) -> (checked: Result<(), Error>)
    ensures
        values > MAX_BATCH_VALUES ==> checked == Err::<(), Error>(Error::TooManyValues),
        values <= MAX_BATCH_VALUES && is_blank(symbol@) ==> checked is Err && checked->Err_0
            is InvalidRequest && checked->Err_0->InvalidRequest_0@ == "Symbol is empty"@,
        values <= MAX_BATCH_VALUES && !is_blank(symbol@) ==> checked is Ok,
{
    if values > MAX_BATCH_VALUES {
        return Err(Error::TooManyValues);
    }
    if blank(symbol) {
        return Err(Error::InvalidRequest(String::from_str("Symbol is empty")));
    }
    Ok(())
}

/// Turns what an aggregator reports for a symbol into an answer: the
/// statistics if there are any, and otherwise the failure that names the
/// symbol.
pub fn stats_or_not_found<T>(symbol: String, stats: Option<T>) -> (answer: Result<T, Error>)
    ensures
        stats is Some ==> answer == Ok::<T, Error>(stats->0),
        stats is None ==> answer == Err::<T, Error>(Error::SymbolNotFound(symbol)),
{
    match stats {
        Some(found) => Ok(found),
        None => Err(Error::SymbolNotFound(symbol)),
    }
}

} // verus!
