//! The ledger store: the save data, the text standing in the backing file,
//! and an explicit exclusion guard with a poison flag.
//!
//! The economy commands live here, and each of them writes the whole ledger
//! back to the stored text after a mutation. Only the gamble path recovers
//! from a poisoned guard (by reloading the ledger from the stored text and
//! clearing the flag); `set_coins` and `add_coins` demand a clean guard, and
//! their caller aborts on a poisoned one — a deliberate asymmetry.

use vstd::prelude::*;

use crate::codec::{dec, enc, push_u64_digits};
use crate::ledger::{balance_in, map_of, BotSaveData};
use crate::parse::{parse_amount, spec_parse_amount};
use crate::rng::coin_flip;
use vstd::string::StringExecFns;

verus! {

/// The new balance after one flip: saturating add on a win, saturating
/// subtract on a loss.
pub open spec fn gamble_balance(b: u64, amount: u64, win: bool) -> u64 {
    if win {
        b.saturating_add(amount)
    } else {
        b.saturating_sub(amount)
    }
}

/// The reply to a gambler whose balance is zero.
pub open spec fn spec_broke_reply() -> Seq<char> {
    "you are broke, dont gamble"@
}

/// The reply to a gamble over zero coins.
pub open spec fn spec_zero_reply() -> Seq<char> {
    "cant gamble 0 coins :("@
}

/// The reply after a won gamble.
pub open spec fn spec_win_reply(new_balance: u64) -> Seq<char> {
    "you WON! and now have "@ + crate::codec::dec_digits(new_balance as int) + " coins"@
}

/// The reply after a lost gamble.
pub open spec fn spec_lose_reply(amount: u64, new_balance: u64) -> Seq<char> {
    "you lost "@ + crate::codec::dec_digits(amount as int) + " coins and now have "@
        + crate::codec::dec_digits(new_balance as int) + " total"@
}

/// The ledger store.
pub struct CoinStore {
    /// The in-memory ledger.
    pub data: BotSaveData,
    /// The text standing in the backing file.
    pub file: String,
    /// Whether a previous holder of the guard failed while holding it.
    pub poisoned: bool,
}

/// The mapping the gamble path acts on: what the store holds in memory,
/// unless the guard was poisoned — then what the stored text holds.
pub open spec fn effective_map(s: CoinStore) -> Map<Seq<char>, u64> {
    if s.poisoned {
        match dec(s.file@) {
            Some(es) => map_of(es),
            None => Map::<Seq<char>, u64>::empty(),
        }
    } else {
        s.data@
    }
}

/// What one gamble with flip outcome `win` does, acting on mapping `m` and
/// stored text `file`: the broke and zero-amount replies without mutation, a
/// silent drop on an unreadable amount, and otherwise the flip applied to the
/// balance, persisted, and reported.
pub open spec fn gamble_step_post(
    m: Map<Seq<char>, u64>,
    file: Seq<char>,
    new: CoinStore,
    user: Seq<char>,
    text: Seq<char>,
    win: bool,
    r: Option<String>,
) -> bool {
    let b = balance_in(m, user);
    if b == 0 {
        &&& r is Some
        &&& (r->0)@ == spec_broke_reply()
        &&& new.data@ == m
        &&& new.file@ == file
    } else {
        match spec_parse_amount(text) {
            None => {
                &&& r is None
                &&& new.data@ == m
                &&& new.file@ == file
            },
            Some(amount) => if amount == 0 {
                &&& r is Some
                &&& (r->0)@ == spec_zero_reply()
                &&& new.data@ == m
                &&& new.file@ == file
            } else {
                let nb = gamble_balance(b, amount, win);
                &&& new.data@ == m.insert(user, nb)
                &&& new.file@ == enc(new.data.kv())
                &&& r is Some
                &&& (r->0)@ == if win {
                    spec_win_reply(nb)
                } else {
                    spec_lose_reply(amount, nb)
                }
            },
        }
    }
}

/// What `set_coins` does: on a readable amount, overwrite the sender's own
/// entry and persist the whole ledger; otherwise nothing.
pub open spec fn set_coins_post(o: CoinStore, n: CoinStore, user: Seq<char>, text: Seq<char>) -> bool {
    &&& n.poisoned == o.poisoned
    &&& match spec_parse_amount(text) {
        None => n.data == o.data && n.file == o.file,
        Some(amount) => n.data@ == o.data@.insert(user, amount) && n.file@ == enc(n.data.kv()),
    }
}

/// What `add_coins` does: on a readable amount, raise the sender's existing
/// entry by it (saturating), or insert it for an absent sender, and persist
/// the whole ledger; otherwise nothing.
pub open spec fn add_coins_post(o: CoinStore, n: CoinStore, user: Seq<char>, text: Seq<char>) -> bool {
    &&& n.poisoned == o.poisoned
    &&& match spec_parse_amount(text) {
        None => n.data == o.data && n.file == o.file,
        Some(amount) => n.data@ == o.data@.insert(
            user,
            if o.data@.contains_key(user) {
                o.data@[user].saturating_add(amount)
            } else {
                amount
            },
        ) && n.file@ == enc(n.data.kv()),
    }
}

impl CoinStore {
    /// The store is well-formed when its ledger is.
    pub open spec fn wf(self) -> bool {
        self.data.wf()
    }

    /// Open the store over the stored text, as at process start: text `dec`
    /// does not accept yields the empty ledger.
    pub fn from_saved(contents: &str) -> (r: Self)
        ensures
            r.wf(),
            !r.poisoned,
            r.file@ == contents@,
            dec(contents@) is Some ==> r.data.kv() == dec(contents@)->0,
            dec(contents@) is None ==> r.data.kv() == Seq::<(Seq<char>, u64)>::empty(),
    {
        CoinStore { data: BotSaveData::load(contents), file: contents.to_owned(), poisoned: false }
    }

    /// Note that a previous holder of the guard failed while holding it.
    pub fn mark_poisoned(&mut self)
        ensures
            final(self).data == old(self).data,
            final(self).file == old(self).file,
            final(self).poisoned,
    {
        self.poisoned = true;
    }

    /// Whether the guard is poisoned.
    pub fn is_poisoned(&self) -> (r: bool)
        ensures
            r == self.poisoned,
    {
        self.poisoned
    }

    /// The text standing in the backing file, for the caller to mirror to
    /// disk.
    pub fn persisted(&self) -> (r: &String)
        ensures
            r@ == self.file@,
    {
        &self.file
    }

    /// One gamble by `user` on message `text` with the flip outcome given:
    /// the read-modify-write-persist step under a clean guard.
    pub fn gamble_with(&mut self, user: &str, text: &str, win: bool) -> (r: Option<String>)
        requires
            old(self).wf(),
            !old(self).poisoned,
        ensures
            final(self).wf(),
            !final(self).poisoned,
            gamble_step_post(
                old(self).data@,
                old(self).file@,
                *final(self),
                user@,
                text@,
                win,
                r,
            ),
    {
        let b = self.data.balance_or_default(user);
        if b == 0 {
            return Some("you are broke, dont gamble".to_owned());
        }
        match parse_amount(text) {
            None => None,
            Some(amount) => {
                if amount == 0 {
                    return Some("cant gamble 0 coins :(".to_owned());
                }
                let nb = if win {
                    b.saturating_add(amount)
                } else {
                    b.saturating_sub(amount)
                };
                self.data.set_balance(user, nb);
                self.file = self.data.save();
                let mut msg = String::new();
                if win {
                    msg.append("you WON! and now have ");
                    push_u64_digits(&mut msg, nb);
                    msg.append(" coins");
                    proof {
                        assert(msg@ =~= spec_win_reply(nb));
                    }
                } else {
                    msg.append("you lost ");
                    push_u64_digits(&mut msg, amount);
                    msg.append(" coins and now have ");
                    push_u64_digits(&mut msg, nb);
                    msg.append(" total");
                    proof {
                        assert(msg@ =~= spec_lose_reply(amount, nb));
                    }
                }
                Some(msg)
            },
        }
    }

    /// The gamble command: recover from a poisoned guard by reloading the
    /// ledger from the stored text, then gamble on one coin flip.
    pub fn gamble(&mut self, user: &str, text: &str) -> (r: Option<String>)
        requires
            old(self).wf(),
        ensures
            final(self).wf(),
            !final(self).poisoned,
            gamble_step_post(
                effective_map(*old(self)),
                old(self).file@,
                *final(self),
                user@,
                text@,
                true,
                r,
            ) || gamble_step_post(
                effective_map(*old(self)),
                old(self).file@,
                *final(self),
                user@,
                text@,
                false,
                r,
            ),
    {
        if self.poisoned {
            let fresh = BotSaveData::load(self.file.as_str());
            self.data = fresh;
            self.poisoned = false;
            proof {
                if dec(old(self).file@) is None {
                    assert(self.data.kv() == Seq::<(Seq<char>, u64)>::empty());
                    assert(map_of(self.data.kv()) =~= Map::<Seq<char>, u64>::empty());
                }
                assert(self.data@ == effective_map(*old(self)));
            }
        }
        let win = coin_flip();
        let r = self.gamble_with(user, text, win);
        proof {
            if win {
                assert(gamble_step_post(
                    effective_map(*old(self)),
                    old(self).file@,
                    *self,
                    user@,
                    text@,
                    true,
                    r,
                ));
            } else {
                assert(gamble_step_post(
                    effective_map(*old(self)),
                    old(self).file@,
                    *self,
                    user@,
                    text@,
                    false,
                    r,
                ));
            }
        }
        r
    }

    /// The set_coins command body: overwrite the sender's own entry with the
    /// parsed amount — no target user is parsed, so the owner can only set
    /// their own balance — and persist the ledger; a missing or unreadable
    /// amount does nothing. The guard must be clean — the caller aborts on a
    /// poisoned one.
    pub fn set_coins(&mut self, user: &str, text: &str) -> (r: Option<()>)
        requires
            old(self).wf(),
            !old(self).poisoned,
        ensures
            final(self).wf(),
            set_coins_post(*old(self), *final(self), user@, text@),
            r is Some <==> spec_parse_amount(text@) is Some,
    {
        match parse_amount(text) {
            None => None,
            Some(amount) => {
                self.data.set_balance(user, amount);
                self.file = self.data.save();
                Some(())
            },
        }
    }

    /// The add_coins command body: raise the sender's entry by the parsed
    /// amount (saturating), inserting it if absent, and persist the ledger; a
    /// missing or unreadable amount does nothing. The guard must be clean —
    /// the caller aborts on a poisoned one.
    pub fn add_coins(&mut self, user: &str, text: &str) -> (r: Option<()>)
        requires
            old(self).wf(),
            !old(self).poisoned,
        ensures
            final(self).wf(),
            add_coins_post(*old(self), *final(self), user@, text@),
            r is Some <==> spec_parse_amount(text@) is Some,
    {
        match parse_amount(text) {
            None => None,
            Some(amount) => {
                match self.data.balance_of(user) {
                    Some(prev) => {
                        self.data.set_balance(user, prev.saturating_add(amount));
                    },
                    None => {
                        self.data.set_balance(user, amount);
                    },
                }
                self.file = self.data.save();
                Some(())
            },
        }
    }
}

} // verus!
