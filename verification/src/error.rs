use vstd::prelude::*;

verus! {

/// The error taxonomy of the wallet core. Every fallible operation surfaces
/// one of these to its caller; none are swallowed.
#[derive(Clone, Copy, Debug, PartialEq, Eq, Structural)]
pub enum WalletError {
    /// A requested spend exceeds the total value of the stored proofs.
    InsufficientFunds,
    /// A redeem was requested for a payment request no invoice was saved for.
    InvoiceNotFound,
    /// The persistent store failed or handed back a corrupt record.
    StorageError,
    /// The mint transport failed.
    NetworkError,
    /// The mint answered outside the protocol (wrong output count or
    /// denominations, or amounts too large to account for).
    ProtocolError,
    /// A token could not be parsed.
    SerializationError,
    /// Wallet construction failed.
    SetupError,
}

impl WalletError {
    /// The user-facing description of this error.
    pub fn message(&self) -> (r: &'static str)
        ensures
            r@ == self.spec_message(),
    {
        match self {
            WalletError::InsufficientFunds => "insufficient funds",
            WalletError::InvoiceNotFound => "invoice not found",
            WalletError::StorageError => "storage failure",
            WalletError::NetworkError => "could not reach the mint",
            WalletError::ProtocolError => "unexpected answer from the mint",
            WalletError::SerializationError => "malformed token",
            WalletError::SetupError => "error setting up wallet",
        }
    }

    /// What `message` returns for each variant.
    pub open spec fn spec_message(&self) -> Seq<char> {
        match self {
            WalletError::InsufficientFunds => "insufficient funds"@,
            WalletError::InvoiceNotFound => "invoice not found"@,
            WalletError::StorageError => "storage failure"@,
            WalletError::NetworkError => "could not reach the mint"@,
            WalletError::ProtocolError => "unexpected answer from the mint"@,
            WalletError::SerializationError => "malformed token"@,
            WalletError::SetupError => "error setting up wallet"@,
        }
    }
}

} // verus!
