//! A transfer record: sender, recipient and amount. Immutable once created;
//! equality is structural.

use vstd::prelude::*;
use vstd::string::StringExecFns;

use crate::digits::{dec_str, push_dec};

verus! {

#[derive(Debug)]
pub struct Transaction {
    pub from: String,
    pub to: String,
    pub amount: u64,
}

/// The mathematical value of a transaction.
#[verifier::ext_equal]
pub struct TransactionView {
    pub from: Seq<char>,
    pub to: Seq<char>,
    pub amount: u64,
}

impl View for Transaction {
    type V = TransactionView;

    open spec fn view(&self) -> TransactionView {
        TransactionView { from: self.from@, to: self.to@, amount: self.amount }
    }
}

impl Transaction {
    /// The characters this transaction contributes to a block's hash input:
    /// sender, recipient, then the amount in decimal, with no separators.
    pub open spec fn spec_into(self) -> Seq<char> {
        self.from@ + self.to@ + dec_str(self.amount as nat)
    }

    /// Renders the transaction as the string that block hashing consumes.
    pub fn into(&self) -> (r: String)
        ensures
            r@ == self.spec_into(),
    {
        let mut s = self.from.clone();
        s.append(self.to.as_str());
        push_dec(&mut s, self.amount as u128);
        proof {
            assert(s@ =~= self.spec_into());
        }
        s
    }
}

impl Clone for Transaction {
    fn clone(&self) -> (r: Self)
        ensures
            r == *self,
    {
        Transaction { from: self.from.clone(), to: self.to.clone(), amount: self.amount }
    }
}

impl PartialEq for Transaction {
    fn eq(&self, other: &Self) -> (r: bool) {
        self.from == other.from && self.to == other.to && self.amount == other.amount
    }
}

impl vstd::std_specs::cmp::PartialEqSpecImpl for Transaction {
    open spec fn obeys_eq_spec() -> bool {
        true
    }

    open spec fn eq_spec(&self, other: &Self) -> bool {
        self@ == other@
    }
}

} // verus!
