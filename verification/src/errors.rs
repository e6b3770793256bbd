use vstd::prelude::*;

verus! {

/// `std::io::Error`: the error of std's readers and writers; carried, never
/// looked into.
#[verifier::external_type_specification]
#[verifier::external_body]
pub struct ExIoError(std::io::Error);

/// `bincode::error::EncodeError`: the error of the bincode encoder; carried,
/// never looked into.
#[verifier::external_type_specification]
#[verifier::external_body]
pub struct ExEncodeError(bincode::error::EncodeError);

/// What an operation of the library can fail with.
#[derive(Debug)]
pub enum LatticeError {
    /// A vertex handle does not resolve.
    VertexNotFound,
    /// An edge handle does not resolve.
    EdgeNotFound,
    /// A query node handle does not resolve.
    QueryNodeNotFound,
    /// An unsigned value does not fit in 56 bits; holds the value in decimal.
    NumberTooBig(String),
    /// A query was compiled before a root was chosen.
    RootNotFound,
    /// Stored bytes could not be taken apart, or a value could not be encoded.
    BincodeError(bincode::error::EncodeError),
    /// A reader or a writer failed.
    IOError(std::io::Error),
    /// The alias is already bound.
    AliasAlreadyExists,
}

} // verus!
