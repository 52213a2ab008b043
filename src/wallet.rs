//! The wallet: key pairs and the funds recorded for each.

use vstd::prelude::*;
use crate::crypto::{
    ed25519_public_of, ed25519_signature_of, ed25519_public_key, ed25519_sign, random_secret,
};
use crate::encoding::bytes_eq;
use crate::transaction::OutputRef;

verus! {

/// An Ed25519 key pair as bytes.
pub struct KeyPair {
    secret: Vec<u8>,
    public: Vec<u8>,
}

/// An output the wallet can spend.
#[derive(Clone, Copy, Debug)]
pub struct Coin {
    pub source: OutputRef,
    pub amount: u64,
}

/// A collection of key pairs managing the associated funds.
pub struct Wallet {
    keypairs: Vec<KeyPair>,
    funds: Vec<u64>,
    coins: Vec<Coin>,
}

pub open spec fn sum_coins(s: Seq<Coin>) -> int
    decreases s.len(),
{
    if s.len() == 0 {
        0
    } else {
        sum_coins(s.drop_last()) + s.last().amount
    }
}

proof fn lemma_sum_coins_bound(s: Seq<Coin>)
    ensures
        0 <= sum_coins(s) <= s.len() * (u64::MAX as int),
    decreases s.len(),
{
    if s.len() > 0 {
        lemma_sum_coins_bound(s.drop_last());
    }
}

proof fn lemma_sum_coins_monotone(s: Seq<Coin>, i: int, j: int)
    requires
        0 <= i <= j <= s.len(),
    ensures
        sum_coins(s.take(i)) <= sum_coins(s.take(j)),
    decreases j - i,
{
    if i < j {
        lemma_sum_coins_monotone(s, i, j - 1);
        assert(s.take(j).drop_last() =~= s.take(j - 1));
    }
}

pub open spec fn sum_u64(s: Seq<u64>) -> int
    decreases s.len(),
{
    if s.len() == 0 {
        0
    } else {
        sum_u64(s.drop_last()) + s.last()
    }
}

proof fn lemma_sum_u64_bound(s: Seq<u64>)
    ensures
        0 <= sum_u64(s) <= s.len() * (u64::MAX as int),
    decreases s.len(),
{
    if s.len() > 0 {
        lemma_sum_u64_bound(s.drop_last());
    }
}

impl Wallet {
    /// The public keys held, in order.
    pub closed spec fn public_keys(&self) -> Seq<Seq<u8>> {
        self.keypairs@.map_values(|k: KeyPair| k.public@)
    }

    /// The secret key that belongs to each public key, in order.
    pub closed spec fn secret_keys(&self) -> Seq<Seq<u8>> {
        self.keypairs@.map_values(|k: KeyPair| k.secret@)
    }

    /// The funds recorded for each key pair, in order.
    pub closed spec fn spec_funds(&self) -> Seq<u64> {
        self.funds@
    }

    /// The spendable outputs, in the order they were received.
    pub closed spec fn spec_coins(&self) -> Seq<Coin> {
        self.coins@
    }

    pub open spec fn wf(&self) -> bool {
        &&& self.secret_keys().len() == self.public_keys().len()
        &&& self.spec_funds().len() == self.public_keys().len()
        &&& forall|i: int|
            0 <= i < self.public_keys().len() ==> #[trigger] self.secret_keys()[i].len() == 32
                && self.public_keys()[i] == ed25519_public_of(self.secret_keys()[i])
    }

    /// A wallet with one freshly generated key pair and no funds.
    pub fn new() -> (r: Self)
        ensures
            r.wf(),
            r.public_keys().len() == 1,
            r.spec_funds() == seq![0u64],
            r.spec_coins().len() == 0,
    {
        let secret = random_secret();
        let public = ed25519_public_key(&secret);
        let mut keypairs: Vec<KeyPair> = Vec::new();
        keypairs.push(KeyPair { secret, public });
        let mut funds: Vec<u64> = Vec::new();
        funds.push(0);
        let r = Wallet { keypairs, funds, coins: Vec::new() };
        assert(r.spec_funds() =~= seq![0u64]);
        assert(r.spec_coins() =~= Seq::<Coin>::empty());
        r
    }

    /// The public key at position `i`.
    pub fn public_key(&self, i: usize) -> (r: &Vec<u8>)
        requires
            i < self.public_keys().len(),
        ensures
            r@ == self.public_keys()[i as int],
    {
        &self.keypairs[i].public
    }

    /// Where the first key pair with public key `pk` stands, if any.
    fn get_keypair_for_pk(&self, pk: &Vec<u8>) -> (r: Option<usize>)
        ensures
            match r {
                Some(i) => i < self.public_keys().len() && self.public_keys()[i as int] == pk@
                    && forall|j: int| 0 <= j < i ==> self.public_keys()[j] != pk@,
                None => !self.public_keys().contains(pk@),
            },
    {
        let mut i: usize = 0;
        while i < self.keypairs.len()
            invariant
                i <= self.keypairs@.len(),
                forall|j: int| 0 <= j < i ==> self.public_keys()[j] != pk@,
            decreases self.keypairs@.len() - i,
        {
            if bytes_eq(&self.keypairs[i].public, pk) {
                return Some(i);
            }
            i = i + 1;
        }
        None
    }

    /// Signs `msg` with the secret key that belongs to `pk`; none when the
    /// wallet does not hold `pk`.
    pub fn sign_input(&self, pk: &Vec<u8>, msg: &Vec<u8>) -> (r: Option<Vec<u8>>)
        requires
            self.wf(),
        ensures
            r is Some <==> self.public_keys().contains(pk@),
            r is Some ==> exists|i: int|
                0 <= i < self.public_keys().len() && self.public_keys()[i] == pk@
                    && r.unwrap()@ == ed25519_signature_of(#[trigger] self.secret_keys()[i], msg@),
    {
        match self.get_keypair_for_pk(pk) {
            Some(i) => {
                let kp = &self.keypairs[i];
                assert(self.secret_keys()[i as int] == kp.secret@);
                assert(self.public_keys()[i as int] == kp.public@);
                let sig = ed25519_sign(&kp.secret, msg);
                Some(sig)
            },
            None => None,
        }
    }

    /// The sum of the funds of every key pair.
    pub fn total_funds(&self) -> (r: u128)
        ensures
            r == sum_u64(self.spec_funds()),
    {
        let mut acc: u128 = 0;
        let mut i: usize = 0;
        assert(self.funds@.take(0) =~= Seq::<u64>::empty());
        while i < self.funds.len()
            invariant
                i <= self.funds@.len(),
                acc == sum_u64(self.funds@.take(i as int)),
                acc <= i * (u64::MAX as int),
            decreases self.funds@.len() - i,
        {
            proof { lemma_sum_u64_bound(self.funds@.take(i as int)); }
            assert(self.funds@.take(i + 1).drop_last() =~= self.funds@.take(i as int));
            acc = acc + self.funds[i] as u128;
            i = i + 1;
        }
        assert(self.funds@.take(self.funds@.len() as int) =~= self.funds@);
        acc
    }

    /// Records an output the wallet can spend.
    pub fn receive_coin(&mut self, coin: Coin)
        ensures
            final(self).spec_coins() == old(self).spec_coins().push(coin),
            final(self).public_keys() == old(self).public_keys(),
            final(self).secret_keys() == old(self).secret_keys(),
            final(self).spec_funds() == old(self).spec_funds(),
    {
        self.coins.push(coin);
    }

    /// The shortest run of coins, from the oldest, whose amounts cover
    /// `amount`; none when all of them together fall short.
    pub fn select_outputs_covering(&self, amount: u64) -> (r: Option<Vec<OutputRef>>)
        ensures
            r is None <==> sum_coins(self.spec_coins()) < amount,
            r is Some ==> {
                let k = r.unwrap()@.len() as int;
                &&& k <= self.spec_coins().len()
                &&& r.unwrap()@ == self.spec_coins().take(k).map_values(|c: Coin| c.source)
                &&& sum_coins(self.spec_coins().take(k)) >= amount
                &&& k > 0 ==> sum_coins(self.spec_coins().take(k - 1)) < amount
            },
    {
        let ghost coins = self.coins@;
        let mut picked: Vec<OutputRef> = Vec::new();
        let mut total: u128 = 0;
        let mut i: usize = 0;
        assert(coins.take(0) =~= Seq::<Coin>::empty());
        assert(picked@ =~= coins.take(0).map_values(|c: Coin| c.source));
        while i < self.coins.len()
            invariant
                coins == self.coins@,
                i <= coins.len(),
                total == sum_coins(coins.take(i as int)),
                total <= i * (u64::MAX as int),
                picked@ == coins.take(i as int).map_values(|c: Coin| c.source),
                i > 0 ==> sum_coins(coins.take(i - 1)) < amount,
            decreases coins.len() - i,
        {
            if total >= amount as u128 {
                proof {
                    lemma_sum_coins_monotone(coins, i as int, coins.len() as int);
                    assert(coins.take(coins.len() as int) =~= coins);
                }
                return Some(picked);
            }
            proof { lemma_sum_coins_bound(coins.take(i as int)); }
            assert(coins.take(i + 1).drop_last() =~= coins.take(i as int));
            total = total + self.coins[i].amount as u128;
            picked.push(self.coins[i].source);
            i = i + 1;
            assert(picked@ =~= coins.take(i as int).map_values(|c: Coin| c.source));
        }
        assert(coins.take(coins.len() as int) =~= coins);
        if total >= amount as u128 {
            Some(picked)
        } else {
            None
        }
    }
}

} // verus!
