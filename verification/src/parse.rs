//! The external definition-file parser: the bytes of a file become an
//! ordered sequence of parsed lines.

use vstd::prelude::*;

verus! {

/// One line of a definition file, as the external parser reports it: a
/// parsed `name=value` pair, or a line-level parse error.
pub enum EnvLine {
    Pair(String, String),
    Malformed,
}

/// Relies on `dotenvy::from_read_iter`: the iterator yields, per logical
/// line, either a parsed key/value pair or a line-level error, and keeps
/// going after an error; on empty input it yields nothing. Because the
/// parser substitutes `$NAME` references from the ambient process
/// environment, the result is not a function of the bytes alone, so
/// nothing more is assumed about which lines come back; the verified
/// callers state what they do with every possible line sequence.
#[verifier::external_body]
pub(crate) fn parse_env_bytes(bytes: &Vec<u8>) -> (r: Vec<EnvLine>)
    ensures
        bytes@.len() == 0 ==> r@.len() == 0,
{
    dotenvy::from_read_iter(bytes.as_slice())
        .map(|item| match item {
            Ok((key, value)) => EnvLine::Pair(key, value),
            Err(_) => EnvLine::Malformed,
        })
        .collect()
}

} // verus!
