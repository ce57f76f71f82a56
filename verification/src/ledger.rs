//! The ledger: a mapping from user name to coin balance, stored as a vector
//! of pairs with unique keys and viewed as a `Map<Seq<char>, u64>`.

use vstd::prelude::*;

verus! {

/// Balance a user is treated as having before their first entry is written.
pub const START_COINS: u64 = 1000;

/// The in-memory save data of the bot: each user's coin balance.
pub struct BotSaveData {
    pub coins: Vec<(String, u64)>,
}

/// The mapping described by a sequence of key/value pairs; on duplicate keys
/// the later entry wins.
pub open spec fn map_of(es: Seq<(Seq<char>, u64)>) -> Map<Seq<char>, u64>
    decreases es.len(),
{
    if es.len() == 0 {
        Map::empty()
    } else {
        map_of(es.drop_last()).insert(es.last().0, es.last().1)
    }
}

/// No key occurs twice in the sequence of pairs.
pub open spec fn unique_keys(es: Seq<(Seq<char>, u64)>) -> bool {
    forall|i: int, j: int| 0 <= i < j < es.len() ==> es[i].0 != es[j].0
}

/// The balance a user is treated as having under mapping `m`: the stored
/// one, or `START_COINS` if absent.
pub open spec fn balance_in(m: Map<Seq<char>, u64>, user: Seq<char>) -> u64 {
    if m.contains_key(user) {
        m[user]
    } else {
        START_COINS
    }
}

/// The (name, balance) view of a raw entry vector.
pub open spec fn kv_of(cs: Seq<(String, u64)>) -> Seq<(Seq<char>, u64)> {
    cs.map_values(|p: (String, u64)| (p.0@, p.1))
}

impl BotSaveData {
    /// The entries as a sequence of (name, balance) pairs, in storage order.
    pub open spec fn kv(self) -> Seq<(Seq<char>, u64)> {
        kv_of(self.coins@)
    }

    /// Well-formed: no user occurs twice.
    pub open spec fn wf(self) -> bool {
        unique_keys(self.kv())
    }
}

impl View for BotSaveData {
    type V = Map<Seq<char>, u64>;

    open spec fn view(&self) -> Map<Seq<char>, u64> {
        map_of(self.kv())
    }
}

/// Every key of `map_of(es)` comes from some pair of `es`, and each pair's key
/// is in the map.
pub proof fn lemma_map_of_domain(es: Seq<(Seq<char>, u64)>)
    ensures
        forall|k: Seq<char>|
            #[trigger] map_of(es).contains_key(k) <==> exists|i: int|
                0 <= i < es.len() && es[i].0 == k,
    decreases es.len(),
{
    if es.len() > 0 {
        lemma_map_of_domain(es.drop_last());
        assert forall|k: Seq<char>| #[trigger] map_of(es).contains_key(k) implies exists|i: int|
            0 <= i < es.len() && es[i].0 == k by {
            if k == es.last().0 {
                assert(es[es.len() - 1].0 == k);
            } else {
                assert(map_of(es.drop_last()).contains_key(k));
                let i = choose|i: int| 0 <= i < es.drop_last().len() && es.drop_last()[i].0 == k;
                assert(es.drop_last()[i] == es[i]);
                assert(es[i].0 == k);
            }
        }
        assert forall|k: Seq<char>|
            exists|i: int| 0 <= i < es.len() && es[i].0 == k implies #[trigger] map_of(
            es,
        ).contains_key(k) by {
            let i = choose|i: int| 0 <= i < es.len() && es[i].0 == k;
            if i < es.len() - 1 {
                assert(es.drop_last()[i].0 == k);
                assert(exists|j: int| 0 <= j < es.drop_last().len() && es.drop_last()[j].0 == k);
                assert(map_of(es.drop_last()).contains_key(k));
            } else {
                assert(k == es.last().0);
            }
        }
    }
}

/// With unique keys, the pair at any index is what the map holds at its key.
pub proof fn lemma_map_of_index(es: Seq<(Seq<char>, u64)>, i: int)
    requires
        unique_keys(es),
        0 <= i < es.len(),
    ensures
        map_of(es).contains_key(es[i].0),
        map_of(es)[es[i].0] == es[i].1,
    decreases es.len(),
{
    lemma_map_of_domain(es);
    if i < es.len() - 1 {
        assert(unique_keys(es.drop_last()));
        assert(es.drop_last()[i] == es[i]);
        lemma_map_of_index(es.drop_last(), i);
        assert(es[i].0 != es.last().0);
    }
}

impl BotSaveData {
    /// A fresh, empty ledger.
    pub fn new() -> (r: Self)
        ensures
            r.wf(),
            r@ == Map::<Seq<char>, u64>::empty(),
            r.kv() == Seq::<(Seq<char>, u64)>::empty(),
    {
        BotSaveData { coins: Vec::new() }
    }

    /// The stored balance of `user`, or `None` if absent.
    pub fn balance_of(&self, user: &str) -> (r: Option<u64>)
        requires
            self.wf(),
        ensures
            match r {
                Some(v) => self@.contains_key(user@) && self@[user@] == v,
                None => !self@.contains_key(user@),
            },
    {
        proof {
            lemma_map_of_domain(self.kv());
        }
        let key: String = user.to_owned();
        let n = self.coins.len();
        for i in 0..n
            invariant
                n == self.coins.len(),
                self.wf(),
                key@ == user@,
                forall|j: int| 0 <= j < i ==> self.kv()[j].0 != user@,
        {
            if self.coins[i].0 == key {
                proof {
                    lemma_map_of_index(self.kv(), i as int);
                }
                return Some(self.coins[i].1);
            }
            proof {
                assert(self.kv()[i as int].0 == self.coins@[i as int].0@);
            }
        }
        proof {
            assert forall|i: int| 0 <= i < self.kv().len() implies self.kv()[i].0 != user@ by {}
        }
        None
    }

    /// The balance `user` is treated as having: the stored one, or
    /// `START_COINS` if absent.
    pub fn balance_or_default(&self, user: &str) -> (r: u64)
        requires
            self.wf(),
        ensures
            r == self.spec_balance_or_default(user@),
    {
        match self.balance_of(user) {
            Some(v) => v,
            None => START_COINS,
        }
    }

    /// What `balance_or_default` returns.
    pub open spec fn spec_balance_or_default(self, user: Seq<char>) -> u64 {
        balance_in(self@, user)
    }

    /// Write `value` under `user`, replacing any earlier entry.
    pub fn set_balance(&mut self, user: &str, value: u64)
        requires
            old(self).wf(),
        ensures
            final(self).wf(),
            final(self)@ == old(self)@.insert(user@, value),
    {
        proof {
            lemma_map_of_domain(self.kv());
        }
        let key: String = user.to_owned();
        let n = self.coins.len();
        for i in 0..n
            invariant
                n == self.coins.len(),
                self.wf(),
                key@ == user@,
                self == old(self),
                forall|j: int| 0 <= j < i ==> self.kv()[j].0 != user@,
        {
            if self.coins[i].0 == key {
                proof {
                    lemma_map_of_index(self.kv(), i as int);
                }
                let ghost prev = self.kv();
                self.coins[i].1 = value;
                proof {
                    assert(self.kv() =~= prev.update(i as int, (user@, value)));
                    lemma_map_of_update(prev, i as int, value);
                }
                return ;
            }
            proof {
                assert(self.kv()[i as int].0 == self.coins@[i as int].0@);
            }
        }
        let ghost prev = self.kv();
        self.coins.push((key, value));
        proof {
            assert(self.kv() =~= prev.push((user@, value)));
            assert(self.kv().drop_last() =~= prev);
            assert forall|i: int, j: int|
                0 <= i < j < self.kv().len() implies self.kv()[i].0 != self.kv()[j].0 by {
                if j == self.kv().len() - 1 {
                    assert(prev[i].0 != user@);
                }
            }
        }
    }
}

/// Updating the pair at index `i` (keeping its key) updates the map at that key.
pub proof fn lemma_map_of_update(es: Seq<(Seq<char>, u64)>, i: int, v: u64)
    requires
        unique_keys(es),
        0 <= i < es.len(),
    ensures
        unique_keys(es.update(i, (es[i].0, v))),
        map_of(es.update(i, (es[i].0, v))) == map_of(es).insert(es[i].0, v),
    decreases es.len(),
{
    let es2 = es.update(i, (es[i].0, v));
    assert forall|a: int, b: int| 0 <= a < b < es2.len() implies es2[a].0 != es2[b].0 by {
        assert(es2[a].0 == es[a].0 && es2[b].0 == es[b].0);
    }
    if i == es.len() - 1 {
        assert(es2.drop_last() =~= es.drop_last());
        assert(map_of(es2) =~= map_of(es).insert(es[i].0, v));
    } else {
        assert(es2.drop_last() =~= es.drop_last().update(i, (es[i].0, v)));
        assert(unique_keys(es.drop_last()));
        assert(es.drop_last()[i] == es[i]);
        lemma_map_of_update(es.drop_last(), i, v);
        assert(es[i].0 != es.last().0);
        assert(map_of(es2) =~= map_of(es).insert(es[i].0, v));
    }
}

} // verus!
