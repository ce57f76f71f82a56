//! The command registry and the dispatch step of the event loop.
//!
//! The registry maps an exact command keyword (sigil included) to one
//! handler; a later registration under the same keyword wins. Dispatch routes
//! one channel message: no sigil or an unregistered keyword is dropped
//! silently, the economy handlers act on the ledger store, and the static
//! handlers pick one line at random. The caller runs the event loop itself:
//! it feeds each message in and sends the returned reply.

use vstd::prelude::*;

use crate::parse::{parse_command, spec_parse_command, str_eq};
use crate::rng::pick_index;
use crate::store::{
    add_coins_post, effective_map, gamble_step_post, set_coins_post, CoinStore,
};

verus! {

/// The one identity allowed to run the restricted commands.
pub open spec fn spec_owner_name() -> Seq<char> {
    "just_robbe_"@
}

/// Exec copy of `spec_owner_name`.
pub fn owner_name() -> (r: &'static str)
    ensures
        r@ == spec_owner_name(),
{
    "just_robbe_"
}

/// What a registered command does: an economy command on the ledger store,
/// or a line picked at random from a fixed list.
pub enum Handler {
    Gamble,
    SetCoins,
    AddCoins,
    Static { lines: Vec<String> },
}

impl Handler {
    /// A static handler needs at least one line to pick from.
    pub open spec fn wf(self) -> bool {
        match self {
            Handler::Static { lines } => lines@.len() > 0,
            _ => true,
        }
    }
}

/// What dispatch asks its caller to do.
pub enum DispatchOutcome {
    /// Nothing to send back.
    Silent,
    /// Text to send back to the channel.
    Reply(String),
    /// Abort: a restricted command found the guard poisoned, and the
    /// process has nothing safe left to do.
    Fatal,
}

/// The reply carried by an outcome, if any.
pub open spec fn reply_of(r: DispatchOutcome) -> Option<String> {
    match r {
        DispatchOutcome::Reply(t) => Some(t),
        _ => None,
    }
}

/// The handler registered under `name`: the last entry that carries it.
pub open spec fn lookup_in(cmds: Seq<(String, Handler)>, name: Seq<char>) -> Option<Handler>
    decreases cmds.len(),
{
    if cmds.len() == 0 {
        None
    } else if cmds.last().0@ == name {
        Some(cmds.last().1)
    } else {
        lookup_in(cmds.drop_last(), name)
    }
}

/// The command registry, immutable once the bot runs.
pub struct Bot {
    pub commands: Vec<(String, Handler)>,
}

impl Default for Bot {
    /// A bot with no commands registered.
    fn default() -> (r: Self)
        ensures
            r.commands@ == Seq::<(String, Handler)>::empty(),
            r.wf(),
    {
        Bot { commands: Vec::new() }
    }
}

impl Bot {
    /// Every registered handler is well-formed.
    pub open spec fn wf(self) -> bool {
        forall|i: int|
            0 <= i < self.commands@.len() ==> (#[trigger] self.commands@[i]).1.wf()
    }

    /// Register `cmd` under `name`. A later registration under the same
    /// keyword wins.
    pub fn with_command(self, name: String, cmd: Handler) -> (r: Self)
        requires
            self.wf(),
            cmd.wf(),
        ensures
            r.wf(),
            r.commands@ == self.commands@.push((name, cmd)),
            forall|q: Seq<char>|
                #[trigger] lookup_in(r.commands@, q) == if q == name@ {
                    Some(cmd)
                } else {
                    lookup_in(self.commands@, q)
                },
    {
        let ghost prior = self.commands@;
        let mut s = self;
        s.commands.push((name, cmd));
        proof {
            assert forall|q: Seq<char>|
                #[trigger] lookup_in(s.commands@, q) == (if q == s.commands@.last().0@ {
                    Some(s.commands@.last().1)
                } else {
                    lookup_in(prior, q)
                }) by {
                assert(s.commands@.drop_last() =~= prior);
            }
            assert forall|i: int|
                0 <= i < s.commands@.len() implies (#[trigger] s.commands@[i]).1.wf() by {
                if i < s.commands@.len() - 1 {
                    assert(s.commands@[i] == prior[i]);
                }
            }
        }
        s
    }

    /// Find the registered handler for `name`: the index of the last entry
    /// that carries it.
    fn lookup_index(&self, name: &str) -> (r: Option<usize>)
        ensures
            match r {
                Some(ix) => ix < self.commands@.len() && self.commands@[ix as int].0@ == name@
                    && lookup_in(self.commands@, name@) == Some(self.commands@[ix as int].1),
                None => lookup_in(self.commands@, name@) is None,
            },
    {
        let mut i: usize = self.commands.len();
        proof {
            assert(self.commands@.take(i as int) =~= self.commands@);
        }
        while i > 0
            invariant
                0 <= i <= self.commands@.len(),
                lookup_in(self.commands@, name@) == lookup_in(
                    self.commands@.take(i as int),
                    name@,
                ),
            decreases i,
        {
            i = i - 1;
            if str_eq(self.commands[i].0.as_str(), name) {
                proof {
                    assert(self.commands@.take(i as int + 1).last() == self.commands@[i as int]);
                }
                return Some(i);
            }
            proof {
                assert(self.commands@.take(i as int + 1).last() == self.commands@[i as int]);
                assert(self.commands@.take(i as int + 1).drop_last() =~= self.commands@.take(
                    i as int,
                ));
            }
        }
        proof {
            assert(self.commands@.take(0) =~= Seq::<(String, Handler)>::empty());
        }
        None
    }

    /// One step of the event loop: route one channel message from `sender`
    /// with text `text`. A message without the sigil, or with an unregistered
    /// keyword, is dropped without reply or state change; a restricted
    /// command from anyone but the owner likewise; a restricted command from
    /// the owner on a poisoned guard reports `Fatal`, and the caller is
    /// expected to abort.
    pub fn dispatch(&self, store: &mut CoinStore, sender: &str, text: &str) -> (r:
        DispatchOutcome)
        requires
            self.wf(),
            old(store).wf(),
        ensures
            final(store).wf(),
            ({
                let cmdo = spec_parse_command(text@);
                if cmdo is None {
                    *final(store) == *old(store) && r is Silent
                } else {
                    match lookup_in(self.commands@, cmdo->0) {
                        None => *final(store) == *old(store) && r is Silent,
                        Some(h) => match h {
                            Handler::Gamble => {
                                &&& !(r is Fatal)
                                &&& !final(store).poisoned
                                &&& (gamble_step_post(
                                    effective_map(*old(store)),
                                    old(store).file@,
                                    *final(store),
                                    sender@,
                                    text@,
                                    true,
                                    reply_of(r),
                                ) || gamble_step_post(
                                    effective_map(*old(store)),
                                    old(store).file@,
                                    *final(store),
                                    sender@,
                                    text@,
                                    false,
                                    reply_of(r),
                                ))
                            },
                            Handler::SetCoins => if sender@ != spec_owner_name() {
                                *final(store) == *old(store) && r is Silent
                            } else if old(store).poisoned {
                                *final(store) == *old(store) && r is Fatal
                            } else {
                                r is Silent && set_coins_post(
                                    *old(store),
                                    *final(store),
                                    sender@,
                                    text@,
                                )
                            },
                            Handler::AddCoins => if sender@ != spec_owner_name() {
                                *final(store) == *old(store) && r is Silent
                            } else if old(store).poisoned {
                                *final(store) == *old(store) && r is Fatal
                            } else {
                                r is Silent && add_coins_post(
                                    *old(store),
                                    *final(store),
                                    sender@,
                                    text@,
                                )
                            },
                            Handler::Static { lines } => {
                                &&& *final(store) == *old(store)
                                &&& r is Reply
                                &&& exists|ix: int|
                                    0 <= ix < lines@.len() && (reply_of(r)->0)@ == lines@[ix]@
                            },
                        },
                    }
                }
            }),
    {
        let cmd = match parse_command(text) {
            Some(c) => c,
            None => {
                return DispatchOutcome::Silent;
            },
        };
        let ix = match self.lookup_index(cmd) {
            Some(ix) => ix,
            None => {
                return DispatchOutcome::Silent;
            },
        };
        match &self.commands[ix].1 {
            Handler::Gamble => {
                match store.gamble(sender, text) {
                    Some(t) => DispatchOutcome::Reply(t),
                    None => DispatchOutcome::Silent,
                }
            },
            Handler::SetCoins => {
                if !str_eq(sender, owner_name()) {
                    return DispatchOutcome::Silent;
                }
                if store.is_poisoned() {
                    return DispatchOutcome::Fatal;
                }
                let _ = store.set_coins(sender, text);
                DispatchOutcome::Silent
            },
            Handler::AddCoins => {
                if !str_eq(sender, owner_name()) {
                    return DispatchOutcome::Silent;
                }
                if store.is_poisoned() {
                    return DispatchOutcome::Fatal;
                }
                let _ = store.add_coins(sender, text);
                DispatchOutcome::Silent
            },
            Handler::Static { lines } => {
                let n = lines.len();
                proof {
                    assert(self.commands@[ix as int].1.wf());
                }
                let k = pick_index(n);
                DispatchOutcome::Reply(lines[k].clone())
            },
        }
    }
}

/// The channels the bot joins at start.
pub fn channels_to_join() -> (r: Vec<&'static str>)
    ensures
        r@.len() == 2,
        r@[0]@ == "Just_Robbe_"@,
        r@[1]@ == "crackpotparty"@,
{
    let mut v: Vec<&'static str> = Vec::new();
    v.push("Just_Robbe_");
    v.push("crackpotparty");
    v
}

} // verus!
