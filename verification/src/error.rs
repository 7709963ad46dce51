use vstd::prelude::*;

verus! {

/// The failure conditions this library reports.
#[derive(Clone, Copy, Debug, PartialEq, Eq, Structural)]
pub enum Error {
    /// The destination address could not be parsed.
    AddrParse,
    /// A socket bind, connect or send failed at the OS level.
    IO,
    /// A payload could not be rendered to its wire form.
    Json,
    /// Identifier or timestamp text does not match its canonical grammar.
    InvalidFormat,
}

} // verus!
