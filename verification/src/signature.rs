//! Signing and verifying columns is the consumer's business.

use crate::crdt::scanner::change::ColumnChange;
use crate::error::Error;
use crate::json::JsonValue;
use vstd::prelude::*;

verus! {

/// Signs and verifies single columns. The bytes handed over are those of
/// `column_sig_preimage`.
pub trait SignatureProvider {
    /// The signature of these bytes, empty for none.
    fn sign_column(&self, preimage: &[u8]) -> (r: Result<Vec<u8>, Error>);

    /// Whether `sig` is a signature of these bytes.
    fn verify_column(&self, preimage: &[u8], sig: &JsonValue) -> (r: Result<(), Error>);

    /// Who signs.
    fn author_id(&self) -> (r: String);

    /// Looks at a whole batch before anything of it is verified or written.
    fn on_before_apply(&self, changes: &[ColumnChange]) -> (r: Result<(), Error>);
}

/// A provider for transports that authenticate already: it signs with nothing
/// and takes no signature but null.
#[derive(Clone, Copy, Debug, PartialEq, Eq, Structural)]
pub struct NoopSignatureProvider;

impl SignatureProvider for NoopSignatureProvider {
    fn sign_column(&self, preimage: &[u8]) -> (r: Result<Vec<u8>, Error>)
        ensures
            r matches Ok(sig) && sig@.len() == 0,
    {
        Ok(Vec::new())
    }

    fn verify_column(&self, preimage: &[u8], sig: &JsonValue) -> (r: Result<(), Error>)
        ensures
            sig@ is Null <==> r is Ok,
            !(sig@ is Null) ==> (r matches Err(Error::UnexpectedSignatureUnderNoop)),
    {
        match sig {
            JsonValue::Null => Ok(()),
            _ => Err(Error::UnexpectedSignatureUnderNoop),
        }
    }

    fn author_id(&self) -> (r: String)
        ensures
            r@ == Seq::<char>::empty(),
    {
        String::new()
    }

    fn on_before_apply(&self, changes: &[ColumnChange]) -> (r: Result<(), Error>)
        ensures
            r is Ok,
    {
        Ok(())
    }
}

} // verus!
