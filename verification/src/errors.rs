use vstd::prelude::*;

verus! {

/// `std::io::Error`, carried through as it is.
#[verifier::external_type_specification]
#[verifier::external_body]
pub struct ExIoError(std::io::Error);

/// What can go wrong for a client: the connection, or the database's answer.
#[derive(Debug)]
pub enum NikkaError {
    IoError(std::io::Error),
    DatabaseError(&'static str),
}

impl From<std::io::Error> for NikkaError {
    fn from(io_error: std::io::Error) -> (r: NikkaError) {
        NikkaError::IoError(io_error)
    }
}

impl vstd::std_specs::convert::FromSpecImpl<std::io::Error> for NikkaError {
    open spec fn obeys_from_spec() -> bool {
        true
    }

    open spec fn from_spec(v: std::io::Error) -> NikkaError {
        NikkaError::IoError(v)
    }
}

} // verus!
