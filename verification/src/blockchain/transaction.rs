use vstd::prelude::*;

verus! {

/// A transfer between two parties, signed by the auction owner. The amount
/// is held as the bits of its `f64` value.
#[derive(Debug)]
pub struct Transaction {
    /// The unique ID of the transaction.
    pub id: String,
    /// The sender of the transaction.
    pub sender: String,
    /// The recipient of the transaction.
    pub recipient: String,
    /// The IEEE 754 bits of the amount of the transaction.
    pub amount_bits: u64,
    /// The signature of the transaction.
    pub signature: String,
}

impl Clone for Transaction {
    fn clone(&self) -> (res: Self)
        ensures
            res == *self,
    {
        Transaction {
            id: self.id.clone(),
            sender: self.sender.clone(),
            recipient: self.recipient.clone(),
            amount_bits: self.amount_bits,
            signature: self.signature.clone(),
        }
    }
}

impl Transaction {
    /// A transaction with the given details.
    pub fn new(
        id: String,
        sender: String,
        recipient: String,
        amount_bits: u64,
        signature: String,
    ) -> (t: Self)
        ensures
            t.id == id,
            t.sender == sender,
            t.recipient == recipient,
            t.amount_bits == amount_bits,
            t.signature == signature,
    {
        Transaction { id, sender, recipient, amount_bits, signature }
    }
}

} // verus!
