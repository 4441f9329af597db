//! The transfer walkthrough as a state machine: the session decides the next
//! call to make on the chain, the caller makes it and hands back what came of
//! it. Any failure ends the session at once.
use vstd::prelude::*;
use crate::amount::{
    amount_shape, amount_text, denotes, format_amount, frac_part, lemma_parse_outcome, parse_amount,
    AmountError,
};
use crate::registry::{lookup, ConnectionError, ConnectionRegistry};
use forge_wallet::Wallet;

verus! {

/// The two wallets of a session: the one that pays and the one that is paid.
#[derive(Debug, Clone, Copy, PartialEq, Eq, Structural)]
pub enum Party {
    Sender,
    Recipient,
}

/// What the session waits for.
#[derive(Debug, Clone, Copy, PartialEq, Eq, Structural)]
pub enum Stage {
    ChainInfo,
    DeclareSender,
    DeclareRecipient,
    Grant,
    Transfer,
    Confirm,
    Balances,
    Finished,
    Aborted,
}

#[derive(Debug, Clone, Copy, PartialEq, Eq, Structural)]
pub enum SessionError {
    /// The chain name is not registered, or registration failed.
    Connection(ConnectionError),
    /// The transfer amount is not a valid amount at the chain's precision.
    InvalidAmount(AmountError),
    /// A query to the chain failed.
    Query,
    /// A wallet could not be created.
    Wallet,
    /// A transaction submission failed.
    Submission,
    /// A submission reported success with an empty transaction hash.
    MalformedResponse,
    /// The transfer was not final after the allowed number of polls.
    ConfirmationTimeout,
    /// An event came that the session was not waiting for.
    OutOfOrder,
}

/// What came of the call that the session asked for.
#[derive(Debug, Clone)]
pub enum Event {
    /// The call succeeded and carries nothing the session needs.
    Done,
    /// A transaction was submitted; its hash.
    Submitted { hash: String },
    /// Whether the transfer is final.
    Status { confirmed: bool },
    /// The raw balances of the two wallets, in the smallest unit.
    Balances { sender: u128, recipient: u128 },
    /// The call returned an error.
    Failed,
}

/// The call that the session asks for next.
#[derive(Debug, Clone)]
pub enum Action {
    GetChainInfo { chain: String },
    Declare { signer: Party, moniker: String },
    Poke { signer: Party },
    Transfer { signer: Party, to: Party, amount: u128 },
    CheckTx { hash: String },
    GetAccountState,
    /// The session is over; the balances as decimal text.
    Finish { sender_balance: String, recipient_balance: String },
    Abort { error: SessionError },
}

pub struct Session {
    pub chain: String,
    pub decimal: u32,
    pub amount: u128,
    pub sender_moniker: String,
    pub recipient_moniker: String,
    pub stage: Stage,
    pub transfer_hash: String,
    pub polls_left: u32,
    pub sender_wallet: Option<Wallet>,
    pub recipient_wallet: Option<Wallet>,
}

#[verifier::external_type_specification]
#[verifier::external_body]
pub struct ExWallet(forge_wallet::Wallet);

/// Relies on `forge_wallet::Wallet::create_default_wallet`: a fresh key
/// pair and its address, or an error. Nothing is known of the keys.
#[verifier::external_body]
fn create_default_wallet() -> (r: Option<Wallet>) {
    Wallet::create_default_wallet().ok()
}

/// Whether `event` is the kind of outcome that `stage` waits for.
pub open spec fn expects(stage: Stage, event: Event) -> bool {
    match stage {
        Stage::ChainInfo => event is Done,
        Stage::DeclareSender | Stage::DeclareRecipient | Stage::Grant | Stage::Transfer => event is Submitted,
        Stage::Confirm => event is Status,
        Stage::Balances => event is Balances,
        Stage::Finished | Stage::Aborted => false,
    }
}

pub open spec fn is_over(stage: Stage) -> bool {
    stage == Stage::Finished || stage == Stage::Aborted
}

/// The error that a failed call ends the session with, by what it waited for.
pub open spec fn failure_of(stage: Stage) -> SessionError {
    match stage {
        Stage::DeclareSender | Stage::DeclareRecipient | Stage::Grant | Stage::Transfer => SessionError::Submission,
        _ => SessionError::Query,
    }
}

fn failure_for(stage: Stage) -> (r: SessionError)
    ensures
        r == failure_of(stage),
{
    match stage {
        Stage::DeclareSender | Stage::DeclareRecipient | Stage::Grant | Stage::Transfer => SessionError::Submission,
        _ => SessionError::Query,
    }
}

impl Session {
    /// Past the chain query both wallets exist; once the transfer is
    /// submitted, its hash is known and not empty.
    pub open spec fn wf(&self) -> bool {
        &&& (self.stage == Stage::Confirm || self.stage == Stage::Balances || self.stage
            == Stage::Finished) ==> self.transfer_hash@.len() > 0
        &&& (self.stage != Stage::ChainInfo && self.stage != Stage::Aborted)
            ==> self.sender_wallet is Some && self.recipient_wallet is Some
    }

    /// The parts of a session that no step changes.
    pub open spec fn same_setup(&self, other: &Session) -> bool {
        &&& self.chain == other.chain
        &&& self.decimal == other.decimal
        &&& self.amount == other.amount
        &&& self.sender_moniker == other.sender_moniker
        &&& self.recipient_moniker == other.recipient_moniker
    }

    /// Starts a session on the chain registered under `chain`, to transfer
    /// `amount` (decimal text) at that chain's precision, polling for the
    /// transfer's finality at most `max_polls` times more after the first.
    pub fn new(
        registry: &ConnectionRegistry,
        chain: &str,
        sender_moniker: &str,
        recipient_moniker: &str,
        amount: &str,
        max_polls: u32,
    ) -> (r: Result<Session, SessionError>)
        ensures
            lookup(registry@, chain@) is None ==> r == Err::<Session, SessionError>(
                SessionError::Connection(ConnectionError::NotFound),
            ),
            lookup(registry@, chain@) is Some ==> (r is Err <==> (r matches Err(
                SessionError::InvalidAmount(_),
            ))),
            lookup(registry@, chain@) is Some ==> (r is Ok <==> (exists|v: nat|
                v <= u128::MAX && denotes(amount@, lookup(registry@, chain@)->0.decimal as nat, v))),
            r matches Ok(s) ==> denotes(amount@, s.decimal as nat, s.amount as nat),
            r matches Ok(s) ==> lookup(registry@, chain@) is Some && s.decimal == lookup(
                registry@,
                chain@,
            )->0.decimal,
            r matches Err(SessionError::InvalidAmount(e)) ==> (e == AmountError::Malformed <==> !(
            exists|p: int| amount_shape(amount@, p))),
            r matches Err(SessionError::InvalidAmount(e)) ==> forall|p: int|
                amount_shape(amount@, p) ==> (e == AmountError::ExcessPrecision <==> frac_part(
                    amount@,
                    p,
                ).len() > lookup(registry@, chain@)->0.decimal),
            r matches Ok(s) ==> s.chain@ == chain@ && s.sender_moniker@ == sender_moniker@
                && s.recipient_moniker@ == recipient_moniker@,
            r matches Ok(s) ==> s.stage == Stage::ChainInfo && s.polls_left == max_polls && s.wf(),
    {
        let conn = match registry.get_connection(chain) {
            Some(c) => c,
            None => {
                return Err(SessionError::Connection(ConnectionError::NotFound));
            },
        };
        let parsed = parse_amount(amount, conn.decimal);
        proof {
            lemma_parse_outcome(amount@, conn.decimal as nat, parsed);
        }
        match parsed {
            Ok(v) => {
                let s = Session {
                    chain: chain.to_owned(),
                    decimal: conn.decimal,
                    amount: v,
                    sender_moniker: sender_moniker.to_owned(),
                    recipient_moniker: recipient_moniker.to_owned(),
                    stage: Stage::ChainInfo,
                    transfer_hash: String::new(),
                    polls_left: max_polls,
                    sender_wallet: None,
                    recipient_wallet: None,
                };
                assert(lookup(registry@, chain@)->0.decimal == conn.decimal);
                assert(denotes(amount@, conn.decimal as nat, v as nat));
                Ok(s)
            },
            Err(e) => Err(SessionError::InvalidAmount(e)),
        }
    }

    /// The first call of a session.
    pub fn first_action(&self) -> (r: Action)
        ensures
            r == (Action::GetChainInfo { chain: self.chain }),
    {
        Action::GetChainInfo { chain: self.chain.clone() }
    }

    /// Takes the outcome of the last call and decides the next one.
    pub fn step(&mut self, event: Event) -> (r: Action)
        requires
            old(self).wf(),
        ensures
            final(self).wf(),
            final(self).same_setup(old(self)),
            old(self).stage != Stage::Transfer ==> final(self).transfer_hash == old(
                self,
            ).transfer_hash,
            old(self).stage != Stage::Confirm ==> final(self).polls_left == old(self).polls_left,
            old(self).stage != Stage::ChainInfo ==> final(self).sender_wallet == old(
                self,
            ).sender_wallet && final(self).recipient_wallet == old(self).recipient_wallet,
            // A session that is over stays as it is.
            is_over(old(self).stage) ==> *final(self) == *old(self) && r == (Action::Abort {
                error: SessionError::OutOfOrder,
            }),
            // Any failure ends the session.
            !is_over(old(self).stage) && event is Failed ==> final(self).stage == Stage::Aborted
                && r == (Action::Abort { error: failure_of(old(self).stage) }),
            !is_over(old(self).stage) && !(event is Failed) && !expects(old(self).stage, event)
                ==> final(self).stage == Stage::Aborted && r == (Action::Abort {
                error: SessionError::OutOfOrder,
            }),
            // A submission that reports no hash is a malformed response.
            expects(old(self).stage, event) && event is Submitted && event->hash@.len() == 0 ==> final(self).stage == Stage::Aborted && r == (
            Action::Abort { error: SessionError::MalformedResponse }),
            // After the chain query the session creates both wallets; if
            // either cannot be made the session ends.
            old(self).stage == Stage::ChainInfo && event is Done ==> (final(self).stage
                == Stage::DeclareSender && r == (Action::Declare {
                signer: Party::Sender,
                moniker: old(self).sender_moniker,
            })) || (final(self).stage == Stage::Aborted && r == (Action::Abort {
                error: SessionError::Wallet,
            })),
            old(self).stage == Stage::DeclareSender && event is Submitted && event->hash@.len() > 0
                ==> final(self).stage == Stage::DeclareRecipient && r == (
            Action::Declare { signer: Party::Recipient, moniker: old(self).recipient_moniker }),
            old(self).stage == Stage::DeclareRecipient && event is Submitted && event->hash@.len() > 0
                ==> final(self).stage == Stage::Grant && r == (Action::Poke {
                signer: Party::Sender,
            }),
            old(self).stage == Stage::Grant && event is Submitted && event->hash@.len() > 0
                ==> final(self).stage == Stage::Transfer && r == (
            Action::Transfer { signer: Party::Sender, to: Party::Recipient, amount: old(self).amount }),
            old(self).stage == Stage::Transfer && event is Submitted && event->hash@.len() > 0
                ==> final(self).stage == Stage::Confirm
                && final(self).transfer_hash == event->hash && final(self).polls_left == old(
                self,
            ).polls_left && r == (Action::CheckTx { hash: event->hash }),
            old(self).stage == Stage::Confirm && event == (Event::Status { confirmed: true })
                ==> final(self).stage == Stage::Balances && r is GetAccountState,
            old(self).stage == Stage::Confirm && event == (Event::Status { confirmed: false })
                && old(self).polls_left > 0 ==> final(self).stage == Stage::Confirm
                && final(self).polls_left == old(self).polls_left - 1 && r == (Action::CheckTx {
                hash: old(self).transfer_hash,
            }),
            old(self).stage == Stage::Confirm && event == (Event::Status { confirmed: false })
                && old(self).polls_left == 0 ==> final(self).stage == Stage::Aborted && r == (
            Action::Abort { error: SessionError::ConfirmationTimeout }),
            old(self).stage == Stage::Balances && event is Balances ==> final(self).stage
                == Stage::Finished && r is Finish && r->sender_balance@ == amount_text(
                event->sender as nat,
                old(self).decimal as nat,
            ) && r->recipient_balance@ == amount_text(
                event->recipient as nat,
                old(self).decimal as nat,
            ),
            // The transfer's hash is polled only after it was submitted with
            // a hash, and nothing else is polled.
            r is CheckTx ==> final(self).stage == Stage::Confirm && r->hash
                == final(self).transfer_hash && r->hash@.len() > 0,
            final(self).stage != old(self).stage && !is_over(old(self).stage)
                && final(self).stage != Stage::Aborted ==> expects(old(self).stage, event),
    {
        if self.stage == Stage::Finished || self.stage == Stage::Aborted {
            return Action::Abort { error: SessionError::OutOfOrder };
        }
        if let Event::Failed = event {
            let error = failure_for(self.stage);
            self.stage = Stage::Aborted;
            return Action::Abort { error };
        }
        match (self.stage, event) {
            (Stage::ChainInfo, Event::Done) => {
                let sender = create_default_wallet();
                let recipient = create_default_wallet();
                if sender.is_none() || recipient.is_none() {
                    self.stage = Stage::Aborted;
                    return Action::Abort { error: SessionError::Wallet };
                }
                self.sender_wallet = sender;
                self.recipient_wallet = recipient;
                self.stage = Stage::DeclareSender;
                Action::Declare { signer: Party::Sender, moniker: self.sender_moniker.clone() }
            },
            (Stage::DeclareSender, Event::Submitted { hash })
            | (Stage::DeclareRecipient, Event::Submitted { hash })
            | (Stage::Grant, Event::Submitted { hash })
            | (Stage::Transfer, Event::Submitted { hash }) => {
                if hash.as_str().unicode_len() == 0 {
                    self.stage = Stage::Aborted;
                    return Action::Abort { error: SessionError::MalformedResponse };
                }
                if self.stage == Stage::DeclareSender {
                    self.stage = Stage::DeclareRecipient;
                    Action::Declare {
                        signer: Party::Recipient,
                        moniker: self.recipient_moniker.clone(),
                    }
                } else if self.stage == Stage::DeclareRecipient {
                    self.stage = Stage::Grant;
                    Action::Poke { signer: Party::Sender }
                } else if self.stage == Stage::Grant {
                    self.stage = Stage::Transfer;
                    Action::Transfer { signer: Party::Sender, to: Party::Recipient, amount: self.amount }
                } else {
                    self.stage = Stage::Confirm;
                    self.transfer_hash = hash.clone();
                    Action::CheckTx { hash }
                }
            },
            (Stage::Confirm, Event::Status { confirmed }) => {
                if confirmed {
                    self.stage = Stage::Balances;
                    Action::GetAccountState
                } else if self.polls_left > 0 {
                    self.polls_left = self.polls_left - 1;
                    Action::CheckTx { hash: self.transfer_hash.clone() }
                } else {
                    self.stage = Stage::Aborted;
                    Action::Abort { error: SessionError::ConfirmationTimeout }
                }
            },
            (Stage::Balances, Event::Balances { sender, recipient }) => {
                self.stage = Stage::Finished;
                Action::Finish {
                    sender_balance: format_amount(sender, self.decimal),
                    recipient_balance: format_amount(recipient, self.decimal),
                }
            },
            _ => {
                self.stage = Stage::Aborted;
                Action::Abort { error: SessionError::OutOfOrder }
            },
        }
    }
}

} // verus!
