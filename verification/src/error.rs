use vstd::prelude::*;

verus! {

/// The error kinds a log-processing step can surface.
///
/// `Parse` marks a field that is not a decimal number this library can
/// represent, `Format` a log row without exactly two comma-separated fields,
/// and `Domain` an operation applied outside its domain (an empty data set to
/// average, or a window size of zero).
#[derive(Clone, Copy, Debug, PartialEq, Eq, Structural)]
pub enum LogError {
    Parse,
    Format,
    Domain,
}

} // verus!
