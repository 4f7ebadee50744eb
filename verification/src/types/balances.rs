use vstd::prelude::*;
use crate::natural::Natural;
use crate::types::assoc::{
    assoc_map, keys_unique, lemma_assoc_absent, lemma_assoc_congruence, lemma_assoc_contains,
    lemma_assoc_index, lemma_assoc_push, lemma_assoc_update, pairs_view_eq,
};
use crate::types::principal::Principal;

verus! {

/// What a balance holds on one destination chain.
pub struct ChainEntryView {
    pub tokens: nat,
    pub nonces: Seq<u64>,
    pub tx_count: u64,
    pub last_block: u64,
}

/// A user's account: key, compute credit, per-chain holdings.
pub struct BalanceView {
    pub public_key: Seq<char>,
    pub cycles: nat,
    pub chains_data: Map<u64, ChainEntryView>,
}

/// Per-chain state of one balance: token credit, the source-chain
/// nonces already consumed by top-ups, the destination transaction
/// counter and the last source block read.
pub struct ChainEntry {
    pub tokens: Natural,
    pub nonce: Vec<u64>,
    pub tx_count: u64,
    pub last_block: u64,
}

impl View for ChainEntry {
    type V = ChainEntryView;

    open spec fn view(&self) -> ChainEntryView {
        ChainEntryView {
            tokens: self.tokens@,
            nonces: self.nonce@,
            tx_count: self.tx_count,
            last_block: self.last_block,
        }
    }
}

impl Clone for ChainEntry {
    fn clone(&self) -> (r: Self)
        ensures
            r@ == self@,
    {
        let mut nonce: Vec<u64> = Vec::new();
        let mut i: usize = 0;
        while i < self.nonce.len()
            invariant
                i <= self.nonce@.len(),
                nonce@ =~= self.nonce@.take(i as int),
            decreases self.nonce@.len() - i,
        {
            nonce.push(self.nonce[i]);
            i = i + 1;
        }
        proof {
            assert(nonce@ =~= self.nonce@);
        }
        ChainEntry {
            tokens: self.tokens.clone(),
            nonce,
            tx_count: self.tx_count,
            last_block: self.last_block,
        }
    }
}

impl ChainEntry {
    pub fn empty() -> (r: Self)
        ensures
            r@ == (ChainEntryView { tokens: 0, nonces: Seq::empty(), tx_count: 0, last_block: 0 }),
    {
        ChainEntry { tokens: Natural::zero(), nonce: Vec::new(), tx_count: 0, last_block: 0 }
    }
}

/// No top-up nonce is recorded twice.
pub open spec fn nonces_distinct(nonces: Seq<u64>) -> bool {
    forall|i: int, j: int| 0 <= i < j < nonces.len() ==> nonces[i] != nonces[j]
}

/// A user's account as stored: per-chain entries keyed by chain id.
pub struct Balance {
    pub public_key: String,
    pub cycles: Natural,
    pub chains_data: Vec<(u64, ChainEntry)>,
}

impl View for Balance {
    type V = BalanceView;

    open spec fn view(&self) -> BalanceView {
        BalanceView {
            public_key: self.public_key@,
            cycles: self.cycles@,
            chains_data: assoc_map(self.chains_data@),
        }
    }
}

impl Clone for Balance {
    fn clone(&self) -> (r: Self)
        ensures
            r@ == self@,
            pairs_view_eq(r.chains_data@, self.chains_data@),
            self.wf() ==> r.wf(),
    {
        let mut chains_data: Vec<(u64, ChainEntry)> = Vec::new();
        let mut i: usize = 0;
        while i < self.chains_data.len()
            invariant
                i <= self.chains_data@.len(),
                chains_data@.len() == i,
                forall|k: int|
                    0 <= k < i ==> (#[trigger] chains_data@[k]).0 == self.chains_data@[k].0
                        && chains_data@[k].1@ == self.chains_data@[k].1@,
            decreases self.chains_data@.len() - i,
        {
            let pair = &self.chains_data[i];
            chains_data.push((pair.0, pair.1.clone()));
            i = i + 1;
        }
        proof {
            lemma_assoc_congruence(chains_data@, self.chains_data@);
            if self.wf() {
                assert(pairs_view_eq(self.chains_data@, chains_data@));
                lemma_assoc_congruence(self.chains_data@, chains_data@);
                assert forall|k: int|
                    0 <= k < chains_data@.len() implies nonces_distinct(
                    (#[trigger] chains_data@[k]).1@.nonces,
                ) by {
                    assert(chains_data@[k].1@ == self.chains_data@[k].1@);
                    assert(nonces_distinct(self.chains_data@[k].1@.nonces));
                }
            }
        }
        Balance { public_key: self.public_key.clone(), cycles: self.cycles.clone(), chains_data }
    }
}

impl Balance {
    /// Chain ids appear once, and every entry's nonces are distinct.
    pub open spec fn wf(&self) -> bool {
        &&& keys_unique(self.chains_data@)
        &&& forall|i: int|
            0 <= i < self.chains_data@.len() ==> nonces_distinct(
                (#[trigger] self.chains_data@[i]).1@.nonces,
            )
    }

    pub fn new(public_key: String) -> (r: Self)
        ensures
            r@ == (BalanceView { public_key: public_key@, cycles: 0, chains_data: Map::empty() }),
            r.wf(),
    {
        Balance { public_key, cycles: Natural::zero(), chains_data: Vec::new() }
    }

    /// Index of the entry for a chain, when there is one.
    fn find_entry(&self, chain_id: u64) -> (r: Option<usize>)
        ensures
            match r {
                Some(i) => i < self.chains_data@.len() && self.chains_data@[i as int].0
                    == chain_id,
                None => forall|i: int|
                    0 <= i < self.chains_data@.len() ==> (#[trigger] self.chains_data@[i]).0
                        != chain_id,
            },
    {
        let mut i: usize = 0;
        while i < self.chains_data.len()
            invariant
                i <= self.chains_data@.len(),
                forall|k: int|
                    0 <= k < i ==> (#[trigger] self.chains_data@[k]).0 != chain_id,
            decreases self.chains_data@.len() - i,
        {
            if self.chains_data[i].0 == chain_id {
                return Some(i);
            }
            i = i + 1;
        }
        None
    }

    /// Whether this balance has an entry for a chain.
    pub fn has_entry(&self, chain_id: u64) -> (r: bool)
        requires
            self.wf(),
        ensures
            r == self@.chains_data.contains_key(chain_id),
    {
        let found = self.find_entry(chain_id);
        proof {
            match found {
                Some(i) => lemma_assoc_index(self.chains_data@, i as int),
                None => lemma_assoc_absent(self.chains_data@, chain_id),
            }
        }
        found.is_some()
    }

    /// Replace or create the entry for a chain.
    fn put_entry(&mut self, chain_id: u64, entry: ChainEntry)
        requires
            old(self).wf(),
            nonces_distinct(entry@.nonces),
        ensures
            final(self).wf(),
            final(self)@ == (BalanceView {
                chains_data: old(self)@.chains_data.insert(chain_id, entry@),
                ..old(self)@
            }),
    {
        let found = self.find_entry(chain_id);
        match found {
            Some(i) => {
                proof {
                    lemma_assoc_update(self.chains_data@, i as int, (chain_id, entry));
                }
                self.chains_data.set(i, (chain_id, entry));
            },
            None => {
                proof {
                    lemma_assoc_push(self.chains_data@, (chain_id, entry));
                }
                self.chains_data.push((chain_id, entry));
            },
        }
        proof {
            assert(final(self)@.chains_data =~= old(self)@.chains_data.insert(chain_id, entry@));
            assert(final(self)@ == BalanceView {
                chains_data: old(self)@.chains_data.insert(chain_id, entry@),
                ..old(self)@
            });
        }
    }

    /// A copy of the entry for a chain, when there is one.
    pub fn get_entry(&self, chain_id: u64) -> (r: Option<ChainEntry>)
        requires
            self.wf(),
        ensures
            (r is Some) <==> self@.chains_data.contains_key(chain_id),
            r is Some ==> r->Some_0@ == self@.chains_data[chain_id],
    {
        let found = self.find_entry(chain_id);
        match found {
            Some(i) => {
                proof {
                    lemma_assoc_index(self.chains_data@, i as int);
                }
                Some(self.chains_data[i].1.clone())
            },
            None => {
                proof {
                    lemma_assoc_absent(self.chains_data@, chain_id);
                }
                None
            },
        }
    }
}

/// A balance with one chain entry replaced.
pub open spec fn with_entry(b: BalanceView, chain_id: u64, e: ChainEntryView) -> BalanceView {
    BalanceView { chains_data: b.chains_data.insert(chain_id, e), ..b }
}

/// An entry after one more submission was counted.
pub open spec fn bumped_tx_count(e: ChainEntryView) -> ChainEntryView {
    ChainEntryView { tx_count: (e.tx_count + 1) as u64, ..e }
}

/// An entry after a token debit.
pub open spec fn debited_entry(e: ChainEntryView, amount: nat) -> ChainEntryView {
    ChainEntryView { tokens: (e.tokens - amount) as nat, ..e }
}

/// The ledger: one balance per principal.
pub struct BalancesStorage(pub Vec<(Principal, Balance)>);

impl View for BalancesStorage {
    type V = Map<Seq<u8>, BalanceView>;

    open spec fn view(&self) -> Map<Seq<u8>, BalanceView> {
        assoc_map(self.0@)
    }
}

impl BalancesStorage {
    /// Principals appear once and every balance is well formed.
    pub open spec fn wf(&self) -> bool {
        &&& keys_unique(self.0@)
        &&& forall|i: int| 0 <= i < self.0@.len() ==> (#[trigger] self.0@[i]).1.wf()
    }

    /// Every nonce set recorded anywhere in the ledger is duplicate-free.
    pub open spec fn all_nonces_distinct(m: Map<Seq<u8>, BalanceView>) -> bool {
        forall|p: Seq<u8>, c: u64|
            #![trigger m[p].chains_data[c]]
            m.contains_key(p) && m[p].chains_data.contains_key(c) ==> nonces_distinct(
                m[p].chains_data[c].nonces,
            )
    }

    pub fn new() -> (r: Self)
        ensures
            r@ == Map::<Seq<u8>, BalanceView>::empty(),
            r.wf(),
    {
        BalancesStorage(Vec::new())
    }

    /// No nonce ever appears twice in a well-formed ledger.
    pub proof fn lemma_nonces_distinct(&self)
        requires
            self.wf(),
        ensures
            Self::all_nonces_distinct(self@),
    {
        assert forall|p: Seq<u8>, c: u64|
            self@.contains_key(p) && self@[p].chains_data.contains_key(c) implies nonces_distinct(
            #[trigger] self@[p].chains_data[c].nonces,
        ) by {
            lemma_assoc_contains(self.0@, p);
            let i = choose|i: int|
                0 <= i < self.0@.len() && (#[trigger] self.0@[i]).0@ == p && assoc_map(self.0@)[p]
                    == self.0@[i].1@;
            let b = self.0@[i].1;
            assert(b.wf());
            lemma_assoc_contains(b.chains_data@, c);
            let j = choose|j: int|
                0 <= j < b.chains_data@.len() && (#[trigger] b.chains_data@[j]).0 == c && assoc_map(
                    b.chains_data@,
                )[c] == b.chains_data@[j].1@;
            assert(nonces_distinct(b.chains_data@[j].1@.nonces));
        }
    }

    /// Index of a principal's balance, when there is one.
    fn find(&self, principal: &Principal) -> (r: Option<usize>)
        ensures
            match r {
                Some(i) => i < self.0@.len() && self.0@[i as int].0@ == principal@,
                None => forall|i: int|
                    0 <= i < self.0@.len() ==> (#[trigger] self.0@[i]).0@ != principal@,
            },
    {
        let mut i: usize = 0;
        while i < self.0.len()
            invariant
                i <= self.0@.len(),
                forall|k: int| 0 <= k < i ==> (#[trigger] self.0@[k]).0@ != principal@,
            decreases self.0@.len() - i,
        {
            if &self.0[i].0 == principal {
                return Some(i);
            }
            i = i + 1;
        }
        None
    }

    pub fn is_exists(&self, principal: &Principal) -> (r: bool)
        ensures
            r == self@.contains_key(principal@),
    {
        let found = self.find(principal);
        proof {
            match found {
                Some(i) => lemma_assoc_index_any(self.0@, i as int, principal@),
                None => lemma_assoc_absent(self.0@, principal@),
            }
        }
        found.is_some()
    }

    /// Record a fresh balance under a derived public key; an existing
    /// balance is replaced, as the callers create each one only once.
    pub fn add(&mut self, principal: &Principal, public_key: String)
        requires
            old(self).wf(),
        ensures
            final(self).wf(),
            final(self)@ == old(self)@.insert(
                principal@,
                BalanceView { public_key: public_key@, cycles: 0, chains_data: Map::empty() },
            ),
    {
        let balance = Balance::new(public_key);
        self.put_balance(principal, balance);
    }

    /// Replace or create a principal's balance.
    fn put_balance(&mut self, principal: &Principal, balance: Balance)
        requires
            old(self).wf(),
            balance.wf(),
        ensures
            final(self).wf(),
            final(self)@ == old(self)@.insert(principal@, balance@),
    {
        let found = self.find(principal);
        match found {
            Some(i) => {
                let p2 = self.0[i].0.clone();
                proof {
                    lemma_assoc_update(self.0@, i as int, (p2, balance));
                }
                self.0.set(i, (p2, balance));
            },
            None => {
                let p2 = principal.clone();
                proof {
                    lemma_assoc_push(self.0@, (p2, balance));
                }
                self.0.push((p2, balance));
            },
        }
    }

    /// A copy of a principal's balance, when there is one.
    pub fn get_balance(&self, principal: &Principal) -> (r: Option<Balance>)
        requires
            self.wf(),
        ensures
            (r is Some) <==> self@.contains_key(principal@),
            r is Some ==> r->Some_0@ == self@[principal@] && r->Some_0.wf(),
    {
        let found = self.find(principal);
        match found {
            Some(i) => {
                proof {
                    lemma_assoc_index(self.0@, i as int);
                    assert(self.0@[i as int].1.wf());
                }
                let b = self.0[i].1.clone();
                Some(b)
            },
            None => {
                proof {
                    lemma_assoc_absent(self.0@, principal@);
                }
                None
            },
        }
    }
}

impl BalancesStorage {
    /// Index of a balance known to be present.
    fn index_of_existing(&self, principal: &Principal) -> (i: usize)
        requires
            self.wf(),
            self@.contains_key(principal@),
        ensures
            i < self.0@.len(),
            self.0@[i as int].0@ == principal@,
            self.0@[i as int].1@ == self@[principal@],
            self.0@[i as int].1.wf(),
    {
        let found = self.find(principal);
        match found {
            Some(i) => {
                proof {
                    lemma_assoc_index(self.0@, i as int);
                }
                i
            },
            None => {
                proof {
                    lemma_assoc_absent(self.0@, principal@);
                    assert(false);
                }
                0
            },
        }
    }

    /// Overwrite the balance at a known index.
    fn replace_balance(&mut self, i: usize, balance: Balance)
        requires
            old(self).wf(),
            i < old(self).0@.len(),
            balance.wf(),
        ensures
            final(self).wf(),
            final(self)@ == old(self)@.insert(old(self).0@[i as int].0@, balance@),
    {
        let p2 = self.0[i].0.clone();
        proof {
            lemma_assoc_update(self.0@, i as int, (p2, balance));
        }
        self.0.set(i, (p2, balance));
    }

    /// Grant compute credit, creating the balance under the given key
    /// when the principal has none yet.
    pub fn add_cycles(&mut self, principal: &Principal, cycles: &Natural, public_key: String)
        requires
            old(self).wf(),
        ensures
            final(self).wf(),
            old(self)@.contains_key(principal@) ==> final(self)@ == old(self)@.insert(
                principal@,
                (BalanceView { cycles: old(self)@[principal@].cycles + cycles@, ..old(
                    self,
                )@[principal@] }),
            ),
            !old(self)@.contains_key(principal@) ==> final(self)@ == old(self)@.insert(
                principal@,
                (BalanceView { public_key: public_key@, cycles: cycles@, chains_data: Map::empty() }),
            ),
    {
        let found = self.find(principal);
        match found {
            Some(i) => {
                proof {
                    lemma_assoc_index(self.0@, i as int);
                    assert(self.0@[i as int].1.wf());
                }
                let mut b = self.0[i].1.clone();
                b.cycles = b.cycles.add(cycles);
                self.replace_balance(i, b);
            },
            None => {
                proof {
                    lemma_assoc_absent(self.0@, principal@);
                }
                let mut b = Balance::new(public_key);
                b.cycles = cycles.clone();
                self.put_balance(principal, b);
            },
        }
    }

    /// Credit destination-chain tokens against a fresh top-up nonce;
    /// refused, with nothing changed, when the nonce was seen before.
    pub fn add_tokens_on_chain(
        &mut self,
        principal: &Principal,
        chain_id: u64,
        tokens: &Natural,
        nonce: u64,
    ) -> (r: bool)
        requires
            old(self).wf(),
            old(self)@.contains_key(principal@),
        ensures
            final(self).wf(),
            r == !(old(self)@[principal@].chains_data.contains_key(chain_id)
                && old(self)@[principal@].chains_data[chain_id].nonces.contains(nonce)),
            !r ==> *final(self) == *old(self),
            r && old(self)@[principal@].chains_data.contains_key(chain_id) ==> final(self)@ == old(
                self,
            )@.insert(
                principal@,
                (BalanceView {
                    chains_data: old(self)@[principal@].chains_data.insert(
                        chain_id,
                        (ChainEntryView {
                            tokens: old(self)@[principal@].chains_data[chain_id].tokens + tokens@,
                            nonces: old(self)@[principal@].chains_data[chain_id].nonces.push(nonce),
                            ..old(self)@[principal@].chains_data[chain_id]
                        }),
                    ),
                    ..old(self)@[principal@]
                }),
            ),
            r && !old(self)@[principal@].chains_data.contains_key(chain_id) ==> final(self)@ == old(
                self,
            )@.insert(
                principal@,
                (BalanceView {
                    chains_data: old(self)@[principal@].chains_data.insert(
                        chain_id,
                        (ChainEntryView {
                            tokens: tokens@,
                            nonces: seq![nonce],
                            tx_count: 0,
                            last_block: 0,
                        }),
                    ),
                    ..old(self)@[principal@]
                }),
            ),
    {
        let i = self.index_of_existing(principal);
        let mut b = self.0[i].1.clone();
        match b.find_entry(chain_id) {
            Some(j) => {
                proof {
                    lemma_assoc_index(b.chains_data@, j as int);
                }
                let mut e = b.chains_data[j].1.clone();
                if nonce_used(&e.nonce, nonce) {
                    return false;
                }
                e.tokens = e.tokens.add(tokens);
                e.nonce.push(nonce);
                proof {
                    assert(nonces_distinct(e@.nonces));
                }
                b.put_entry(chain_id, e);
                self.replace_balance(i, b);
                true
            },
            None => {
                proof {
                    lemma_assoc_absent(b.chains_data@, chain_id);
                }
                let mut nonce_vec: Vec<u64> = Vec::new();
                nonce_vec.push(nonce);
                let e = ChainEntry {
                    tokens: tokens.clone(),
                    nonce: nonce_vec,
                    tx_count: 0,
                    last_block: 0,
                };
                b.put_entry(chain_id, e);
                self.replace_balance(i, b);
                true
            },
        }
    }

    /// Spend compute credit; an attempt past zero is refused before
    /// anything changes.
    pub fn reduce_cycles(&mut self, principal: &Principal, cycles: &Natural) -> (r: bool)
        requires
            old(self).wf(),
            old(self)@.contains_key(principal@),
        ensures
            final(self).wf(),
            r == (cycles@ <= old(self)@[principal@].cycles),
            r ==> final(self)@ == old(self)@.insert(
                principal@,
                (BalanceView { cycles: (old(self)@[principal@].cycles - cycles@) as nat, ..old(
                    self,
                )@[principal@] }),
            ),
            !r ==> *final(self) == *old(self),
    {
        let i = self.index_of_existing(principal);
        let mut b = self.0[i].1.clone();
        match b.cycles.checked_sub(cycles) {
            Some(rest) => {
                b.cycles = rest;
                self.replace_balance(i, b);
                true
            },
            None => false,
        }
    }

    /// Spend destination-chain tokens; an attempt past zero is refused
    /// before anything changes.
    pub fn reduce_tokens_on_chain(
        &mut self,
        principal: &Principal,
        chain_id: u64,
        tokens: &Natural,
    ) -> (r: bool)
        requires
            old(self).wf(),
            old(self)@.contains_key(principal@),
            old(self)@[principal@].chains_data.contains_key(chain_id),
        ensures
            final(self).wf(),
            r == (tokens@ <= old(self)@[principal@].chains_data[chain_id].tokens),
            r ==> final(self)@ == old(self)@.insert(
                principal@,
                (BalanceView {
                    chains_data: old(self)@[principal@].chains_data.insert(
                        chain_id,
                        (ChainEntryView {
                            tokens: (old(self)@[principal@].chains_data[chain_id].tokens
                                - tokens@) as nat,
                            ..old(self)@[principal@].chains_data[chain_id]
                        }),
                    ),
                    ..old(self)@[principal@]
                }),
            ),
            !r ==> *final(self) == *old(self),
    {
        let i = self.index_of_existing(principal);
        let mut b = self.0[i].1.clone();
        let j = entry_index_of_existing(&b, chain_id);
        let mut e = b.chains_data[j].1.clone();
        match e.tokens.checked_sub(tokens) {
            Some(rest) => {
                e.tokens = rest;
                b.put_entry(chain_id, e);
                self.replace_balance(i, b);
                true
            },
            None => false,
        }
    }

    /// Whether a top-up nonce was consumed before on this chain.
    pub fn is_used_nonce(&self, principal: &Principal, chain_id: u64, nonce: u64) -> (r: bool)
        requires
            self.wf(),
            self@.contains_key(principal@),
            self@[principal@].chains_data.contains_key(chain_id),
        ensures
            r == self@[principal@].chains_data[chain_id].nonces.contains(nonce),
    {
        let i = self.index_of_existing(principal);
        let b = &self.0[i].1;
        let j = entry_index_of_existing(b, chain_id);
        nonce_used(&b.chains_data[j].1.nonce, nonce)
    }

    /// Advance the last source block read; the mark never moves back.
    pub fn update_last_block(&mut self, principal: &Principal, chain_id: u64, last_block: u64)
        requires
            old(self).wf(),
            old(self)@.contains_key(principal@),
            old(self)@[principal@].chains_data.contains_key(chain_id),
        ensures
            final(self).wf(),
            final(self)@ == old(self)@.insert(
                principal@,
                (BalanceView {
                    chains_data: old(self)@[principal@].chains_data.insert(
                        chain_id,
                        (ChainEntryView {
                            last_block: (if last_block
                                > old(self)@[principal@].chains_data[chain_id].last_block {
                                last_block
                            } else {
                                old(self)@[principal@].chains_data[chain_id].last_block
                            }),
                            ..old(self)@[principal@].chains_data[chain_id]
                        }),
                    ),
                    ..old(self)@[principal@]
                }),
            ),
    {
        let i = self.index_of_existing(principal);
        let mut b = self.0[i].1.clone();
        let j = entry_index_of_existing(&b, chain_id);
        let mut e = b.chains_data[j].1.clone();
        if last_block > e.last_block {
            e.last_block = last_block;
        }
        b.put_entry(chain_id, e);
        self.replace_balance(i, b);
    }

    /// Take the next destination-chain transaction counter value.
    pub fn increment_tx_count(&mut self, principal: &Principal, chain_id: u64) -> (r: u64)
        requires
            old(self).wf(),
            old(self)@.contains_key(principal@),
            old(self)@[principal@].chains_data.contains_key(chain_id),
            old(self)@[principal@].chains_data[chain_id].tx_count < u64::MAX,
        ensures
            final(self).wf(),
            r == old(self)@[principal@].chains_data[chain_id].tx_count + 1,
            final(self)@ == old(self)@.insert(
                principal@,
                (BalanceView {
                    chains_data: old(self)@[principal@].chains_data.insert(
                        chain_id,
                        (ChainEntryView {
                            tx_count: (old(self)@[principal@].chains_data[chain_id].tx_count
                                + 1) as u64,
                            ..old(self)@[principal@].chains_data[chain_id]
                        }),
                    ),
                    ..old(self)@[principal@]
                }),
            ),
    {
        let i = self.index_of_existing(principal);
        let mut b = self.0[i].1.clone();
        let j = entry_index_of_existing(&b, chain_id);
        let mut e = b.chains_data[j].1.clone();
        e.tx_count = e.tx_count + 1;
        let count = e.tx_count;
        b.put_entry(chain_id, e);
        self.replace_balance(i, b);
        count
    }

    /// Give a counter value back after a failed submission.
    pub fn decrement_tx_count(&mut self, principal: &Principal, chain_id: u64)
        requires
            old(self).wf(),
            old(self)@.contains_key(principal@),
            old(self)@[principal@].chains_data.contains_key(chain_id),
            old(self)@[principal@].chains_data[chain_id].tx_count > 0,
        ensures
            final(self).wf(),
            final(self)@ == old(self)@.insert(
                principal@,
                (BalanceView {
                    chains_data: old(self)@[principal@].chains_data.insert(
                        chain_id,
                        (ChainEntryView {
                            tx_count: (old(self)@[principal@].chains_data[chain_id].tx_count
                                - 1) as u64,
                            ..old(self)@[principal@].chains_data[chain_id]
                        }),
                    ),
                    ..old(self)@[principal@]
                }),
            ),
    {
        let i = self.index_of_existing(principal);
        let mut b = self.0[i].1.clone();
        let j = entry_index_of_existing(&b, chain_id);
        let mut e = b.chains_data[j].1.clone();
        e.tx_count = e.tx_count - 1;
        b.put_entry(chain_id, e);
        self.replace_balance(i, b);
    }
}

impl BalancesStorage {
    /// Run one submission under a freshly taken counter value: the
    /// counter stays taken when the body succeeds, and is given back
    /// when the body fails, so the counter tracks successful
    /// submissions only.
    pub fn with_tx<T, E, F: FnOnce(u64) -> Result<T, E>>(
        &mut self,
        principal: &Principal,
        chain_id: u64,
        f: F,
    ) -> (r: Result<T, E>)
        requires
            old(self).wf(),
            old(self)@.contains_key(principal@),
            old(self)@[principal@].chains_data.contains_key(chain_id),
            old(self)@[principal@].chains_data[chain_id].tx_count < u64::MAX,
            call_requires(
                f,
                ((old(self)@[principal@].chains_data[chain_id].tx_count + 1) as u64,),
            ),
        ensures
            final(self).wf(),
            call_ensures(
                f,
                ((old(self)@[principal@].chains_data[chain_id].tx_count + 1) as u64,),
                r,
            ),
            r is Ok ==> final(self)@ == old(self)@.insert(
                principal@,
                (BalanceView {
                    chains_data: old(self)@[principal@].chains_data.insert(
                        chain_id,
                        (ChainEntryView {
                            tx_count: (old(self)@[principal@].chains_data[chain_id].tx_count
                                + 1) as u64,
                            ..old(self)@[principal@].chains_data[chain_id]
                        }),
                    ),
                    ..old(self)@[principal@]
                }),
            ),
            r is Err ==> final(self)@ == old(self)@,
    {
        let count = self.increment_tx_count(principal, chain_id);
        let result = f(count);
        if result.is_err() {
            proof {
                let m0 = old(self)@;
                let p0 = principal@;
                assert(self@[p0].chains_data[chain_id].tx_count == m0[p0].chains_data[chain_id].tx_count + 1);
            }
            self.decrement_tx_count(principal, chain_id);
            proof {
                let m0 = old(self)@;
                let p0 = principal@;
                let ev0 = m0[p0].chains_data[chain_id];
                assert(self@[p0].chains_data[chain_id] == ev0);
                assert(self@[p0].chains_data =~= m0[p0].chains_data);
                assert(self@[p0] == m0[p0]);
                assert(self@ =~= m0);
            }
        }
        result
    }
}

/// The counter value after a run of submission attempts, each ruled
/// by the submission discipline: an attempt takes the next value, a
/// failed attempt gives it back.
pub open spec fn count_after_attempts(outcomes: Seq<bool>, start: nat) -> nat
    decreases outcomes.len(),
{
    if outcomes.len() == 0 {
        start
    } else {
        let prev = count_after_attempts(outcomes.drop_last(), start);
        if outcomes.last() {
            (prev + 1) as nat
        } else {
            prev
        }
    }
}

/// How many attempts in a run went through.
pub open spec fn successful_attempts(outcomes: Seq<bool>) -> nat
    decreases outcomes.len(),
{
    if outcomes.len() == 0 {
        0
    } else {
        (successful_attempts(outcomes.drop_last()) + (if outcomes.last() {
            1int
        } else {
            0int
        })) as nat
    }
}

/// After any run of submission attempts the counter has grown by
/// exactly the successful ones, so it is never below the number of
/// submissions that ever went through.
pub proof fn lemma_tx_count_covers_successes(outcomes: Seq<bool>, start: nat)
    ensures
        count_after_attempts(outcomes, start) == start + successful_attempts(outcomes),
        count_after_attempts(outcomes, start) >= successful_attempts(outcomes),
    decreases outcomes.len(),
{
    if outcomes.len() > 0 {
        lemma_tx_count_covers_successes(outcomes.drop_last(), start);
    }
}

/// Index of a chain entry known to be present.
fn entry_index_of_existing(balance: &Balance, chain_id: u64) -> (j: usize)
    requires
        balance.wf(),
        balance@.chains_data.contains_key(chain_id),
    ensures
        j < balance.chains_data@.len(),
        balance.chains_data@[j as int].0 == chain_id,
        balance.chains_data@[j as int].1@ == balance@.chains_data[chain_id],
{
    let found = balance.find_entry(chain_id);
    match found {
        Some(j) => {
            proof {
                lemma_assoc_index(balance.chains_data@, j as int);
            }
            j
        },
        None => {
            proof {
                lemma_assoc_absent(balance.chains_data@, chain_id);
                assert(false);
            }
            0
        },
    }
}

/// Whether a nonce is already recorded.
fn nonce_used(nonces: &Vec<u64>, nonce: u64) -> (r: bool)
    ensures
        r == nonces@.contains(nonce),
{
    let mut i: usize = 0;
    while i < nonces.len()
        invariant
            i <= nonces@.len(),
            forall|k: int| 0 <= k < i ==> nonces@[k] != nonce,
        decreases nonces@.len() - i,
    {
        if nonces[i] == nonce {
            return true;
        }
        i = i + 1;
    }
    proof {
        assert(!nonces@.contains(nonce));
    }
    false
}

/// An entry at a valid index puts its own key in the map, whatever the
/// other keys are, as long as the sequence is uniquely keyed up to it.
proof fn lemma_assoc_index_any(s: Seq<(Principal, Balance)>, i: int, k: Seq<u8>)
    requires
        0 <= i < s.len(),
        s[i].0@ == k,
    ensures
        assoc_map(s).contains_key(k),
    decreases s.len(),
{
    if i == s.len() - 1 {
    } else {
        lemma_assoc_index_any(s.drop_last(), i, k);
    }
}

} // verus!
