//! The `bitcoin` crate's types that pass through the library unopened.
use vstd::prelude::*;

verus! {

#[verifier::external_type_specification]
#[verifier::external_body]
pub struct ExBitcoinHeader(bitcoin::BlockHeader);

#[verifier::external_type_specification]
#[verifier::external_body]
pub struct ExBitcoinBlockHash(bitcoin::BlockHash);

#[verifier::external_type_specification]
#[verifier::external_body]
pub struct ExBitcoinNetwork(bitcoin::Network);

#[verifier::external_type_specification]
#[verifier::external_body]
pub struct ExTransaction(bitcoin::Transaction);

} // verus!
