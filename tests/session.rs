use forge_session::amount::AmountError;
use forge_session::registry::{ConnectionError, ConnectionRegistry};
use forge_session::session::{Action, Event, Party, Session, SessionError, Stage};

fn registry() -> ConnectionRegistry {
    let mut reg = ConnectionRegistry::new();
    reg.add_connection("chain_1", "127.0.0.1:28210", 8).unwrap();
    reg
}

fn submitted(h: &str) -> Event {
    Event::Submitted { hash: h.to_string() }
}

/// A session that has submitted its transfer under hash "h4".
fn at_confirm(max_polls: u32) -> Session {
    let mut s = Session::new(&registry(), "chain_1", "alice", "bob_01", "1", max_polls).unwrap();
    s.step(Event::Done);
    s.step(submitted("h1"));
    s.step(submitted("h2"));
    s.step(submitted("h3"));
    assert!(matches!(s.step(submitted("h4")), Action::CheckTx { ref hash } if hash == "h4"));
    s
}

#[test]
fn transfer_walkthrough() {
    let reg = registry();
    let mut s = Session::new(&reg, "chain_1", "alice", "bob_01", "1", 3).unwrap();
    assert_eq!(s.amount, 100_000_000);
    assert!(matches!(s.first_action(), Action::GetChainInfo { ref chain } if chain == "chain_1"));
    let a = s.step(Event::Done);
    assert!(matches!(a, Action::Declare { signer: Party::Sender, ref moniker } if moniker == "alice"));
    assert!(s.sender_wallet.is_some() && s.recipient_wallet.is_some());
    assert_ne!(
        s.sender_wallet.as_ref().unwrap().address,
        s.recipient_wallet.as_ref().unwrap().address
    );
    let a = s.step(submitted("h1"));
    assert!(matches!(a, Action::Declare { signer: Party::Recipient, ref moniker } if moniker == "bob_01"));
    assert!(matches!(s.step(submitted("h2")), Action::Poke { signer: Party::Sender }));
    let a = s.step(submitted("h3"));
    assert!(matches!(
        a,
        Action::Transfer { signer: Party::Sender, to: Party::Recipient, amount: 100_000_000 }
    ));
    assert!(matches!(s.step(submitted("h4")), Action::CheckTx { ref hash } if hash == "h4"));
    assert!(matches!(s.step(Event::Status { confirmed: false }), Action::CheckTx { ref hash } if hash == "h4"));
    assert!(matches!(s.step(Event::Status { confirmed: true }), Action::GetAccountState));
    // The grant was 25 tokens; one went from the sender to the recipient.
    let a = s.step(Event::Balances { sender: 2_400_000_000, recipient: 100_000_000 });
    match a {
        Action::Finish { sender_balance, recipient_balance } => {
            assert_eq!(sender_balance, "24");
            assert_eq!(recipient_balance, "1");
        }
        other => panic!("unexpected {other:?}"),
    }
    assert_eq!(s.stage, Stage::Finished);
    assert!(matches!(s.step(Event::Done), Action::Abort { error: SessionError::OutOfOrder }));
    assert_eq!(s.stage, Stage::Finished);
}

#[test]
fn unregistered_chain_is_not_found() {
    let reg = registry();
    let r = Session::new(&reg, "chain_2", "alice", "bob_01", "1", 3);
    assert!(matches!(r, Err(SessionError::Connection(ConnectionError::NotFound))));
}

#[test]
fn invalid_amount_is_refused() {
    let reg = registry();
    let r = Session::new(&reg, "chain_1", "alice", "bob_01", "1.000000001", 3);
    assert!(matches!(r, Err(SessionError::InvalidAmount(AmountError::ExcessPrecision))));
    let r = Session::new(&reg, "chain_1", "alice", "bob_01", "one", 3);
    assert!(matches!(r, Err(SessionError::InvalidAmount(AmountError::Malformed))));
}

#[test]
fn empty_hash_is_malformed_response() {
    let mut s = Session::new(&registry(), "chain_1", "alice", "bob_01", "1", 3).unwrap();
    s.step(Event::Done);
    assert!(matches!(s.step(submitted("")), Action::Abort { error: SessionError::MalformedResponse }));
    assert_eq!(s.stage, Stage::Aborted);
}

#[test]
fn failed_submission_aborts_before_polling() {
    let mut s = Session::new(&registry(), "chain_1", "alice", "bob_01", "1", 3).unwrap();
    s.step(Event::Done);
    s.step(submitted("h1"));
    s.step(submitted("h2"));
    s.step(submitted("h3"));
    assert!(matches!(s.step(Event::Failed), Action::Abort { error: SessionError::Submission }));
    assert!(matches!(s.step(Event::Status { confirmed: true }), Action::Abort { error: SessionError::OutOfOrder }));
    assert_eq!(s.stage, Stage::Aborted);
}

#[test]
fn failed_chain_query_aborts() {
    let mut s = Session::new(&registry(), "chain_1", "alice", "bob_01", "1", 3).unwrap();
    assert!(matches!(s.step(Event::Failed), Action::Abort { error: SessionError::Query }));
}

#[test]
fn polling_until_timeout() {
    let mut s = at_confirm(2);
    assert!(matches!(s.step(Event::Status { confirmed: false }), Action::CheckTx { .. }));
    assert!(matches!(s.step(Event::Status { confirmed: false }), Action::CheckTx { .. }));
    assert_eq!(s.polls_left, 0);
    assert!(matches!(
        s.step(Event::Status { confirmed: false }),
        Action::Abort { error: SessionError::ConfirmationTimeout }
    ));
}

#[test]
fn confirmed_transfer_queries_balances() {
    let mut s = at_confirm(0);
    assert!(matches!(s.step(Event::Status { confirmed: true }), Action::GetAccountState));
    assert_eq!(s.stage, Stage::Balances);
}

#[test]
fn out_of_order_event_aborts() {
    let mut s = Session::new(&registry(), "chain_1", "alice", "bob_01", "1", 3).unwrap();
    assert!(matches!(s.step(submitted("h")), Action::Abort { error: SessionError::OutOfOrder }));
}
