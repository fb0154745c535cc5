use vstd::prelude::*;
use crate::transaction::{tx_encodable, SignedTransaction, SignedTransactionView};

verus! {

/// The pending transactions, most recently added last.
pub struct Mempool {
    txs: Vec<SignedTransaction>,
}

impl View for Mempool {
    type V = Seq<SignedTransactionView>;

    closed spec fn view(&self) -> Seq<SignedTransactionView> {
        self.txs@.map_values(|t: SignedTransaction| t@)
    }
}

impl Mempool {
    /// Every pending transaction can be encoded and hashed.
    pub open spec fn wf(&self) -> bool {
        forall|i: int| 0 <= i < self@.len() ==> tx_encodable(#[trigger] self@[i])
    }

    pub fn new() -> (r: Mempool)
        ensures
            r@ == Seq::<SignedTransactionView>::empty(),
            r.wf(),
    {
        let r = Mempool { txs: Vec::new() };
        assert(r@ =~= Seq::<SignedTransactionView>::empty());
        r
    }

    pub fn len(&self) -> (r: usize)
        ensures
            r == self@.len(),
    {
        self.txs.len()
    }

    /// Adds a transaction.
    pub fn insert(&mut self, tx: SignedTransaction)
        requires
            old(self).wf(),
            tx_encodable(tx@),
        ensures
            final(self)@ == old(self)@.push(tx@),
            final(self).wf(),
    {
        let ghost before = self@;
        self.txs.push(tx);
        assert(self@ =~= before.push(tx@));
    }

    /// Removes and returns a pending transaction, the most recently added.
    pub fn pop(&mut self) -> (r: Option<SignedTransaction>)
        requires
            old(self).wf(),
        ensures
            final(self).wf(),
            old(self)@.len() == 0 ==> r is None && final(self)@ == old(self)@,
            old(self)@.len() > 0 ==> match r {
                Some(t) => t@ == old(self)@.last() && final(self)@ == old(self)@.drop_last(),
                None => false,
            },
    {
        let ghost before = self@;
        let r = self.txs.pop();
        assert(self@ =~= before.take(self@.len() as int));
        r
    }
}

} // verus!
