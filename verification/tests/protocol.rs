use chat_base::connection::ChannelPair;
use chat_base::error::NetError;
use chat_base::init::{init_protocol, InitRequest, InitState, InitStateAccessor, Side, CURRENT_VERSION};
use chat_base::protocol::{Destination, NextStep, Protocol, Route, StepOutcome};
use chat_base::serialization::{ReadWrite, Serializable};

fn server_channel(incoming: Vec<u8>) -> ChannelPair {
    ChannelPair::ServerPair {
        impl_to_server: ReadWrite::reading(incoming),
        impl_to_client: ReadWrite::writing(),
    }
}

fn client_channel(incoming: Vec<u8>) -> ChannelPair {
    ChannelPair::ClientPair {
        impl_to_server: ReadWrite::writing(),
        impl_to_client: ReadWrite::reading(incoming),
    }
}

#[test]
fn towards_each_side() {
    let mut server = server_channel(vec![9]);
    let mut b: u8 = 5;
    b.serialize(server.towards_other_side()).unwrap();
    assert_eq!(server.towards_client().flush(), vec![5]);
    b.serialize(server.towards_this_side()).unwrap();
    assert_eq!(b, 9);

    let mut client = client_channel(vec![4]);
    let mut c: u8 = 6;
    c.serialize(client.towards_other_side()).unwrap();
    assert_eq!(client.towards_server().flush(), vec![6]);
    c.serialize(client.towards_this_side()).unwrap();
    assert_eq!(c, 4);
}

#[test]
fn handshake_between_client_and_server() {
    let protocol_s = init_protocol();
    let protocol_c = init_protocol();
    let mut server_state = InitState::new(Side::Server);
    let mut client_state = InitState::new(Side::Client);
    let mut server = server_channel(vec![]);
    let mut client = client_channel(vec![]);
    let mut server_run = protocol_s.start();
    let mut client_run = protocol_c.start();
    let mut server_done = false;
    let mut client_done = false;
    let mut requests: Vec<(Side, InitRequest)> = Vec::new();
    for _ in 0..20 {
        if !client_done {
            match client_run.run(&mut client_state, &mut client) {
                StepOutcome::Done => client_done = true,
                StepOutcome::Request(r) => {
                    if r == InitRequest::AskUsername {
                        client_state.username = "bob".to_string();
                    }
                    requests.push((Side::Client, r));
                }
                StepOutcome::NeedInput => {}
                StepOutcome::Failed(e) => panic!("client failed: {:?}", e),
                StepOutcome::Progress => unreachable!(),
            }
        }
        let to_server = client.towards_server().flush();
        server.towards_server().receive(&to_server);
        if !server_done {
            match server_run.run(&mut server_state, &mut server) {
                StepOutcome::Done => server_done = true,
                StepOutcome::Request(r) => requests.push((Side::Server, r)),
                StepOutcome::NeedInput => {}
                StepOutcome::Failed(e) => panic!("server failed: {:?}", e),
                StepOutcome::Progress => unreachable!(),
            }
        }
        let to_client = server.towards_client().flush();
        client.towards_client().receive(&to_client);
    }
    assert!(server_done && client_done);
    assert_eq!(server_state.their_version(), CURRENT_VERSION);
    assert_eq!(client_state.their_version(), CURRENT_VERSION);
    assert_eq!(client_state.username, "bob");
    assert_eq!(
        requests,
        vec![
            (Side::Client, InitRequest::AskUsername),
            (Side::Client, InitRequest::ReportNoTest),
            (Side::Server, InitRequest::ReportNoTest),
        ]
    );
}

#[test]
fn handshake_rejects_other_version() {
    let protocol = init_protocol();
    let mut state = InitState::new(Side::Server);
    let mut channel = server_channel(vec![2, 0, 0, 0]);
    let r = protocol.run_protocol(&mut state, &mut channel);
    assert_eq!(r, Err(NetError::VersionMismatch { ours: 1, theirs: 2 }));
    assert_eq!(channel.towards_client().flush(), vec![1, 0, 0, 0]);
    assert_eq!(state.their_version(), 2);
}

#[test]
fn handshake_runs_to_its_end_in_memory() {
    let protocol = init_protocol();
    let mut state = InitState::new(Side::Server);
    let mut channel = server_channel(vec![1, 0, 0, 0, 0]);
    assert_eq!(
        protocol.run_protocol(&mut state, &mut channel),
        Ok(Some(InitRequest::ReportNoTest))
    );
    assert_eq!(channel.towards_client().flush(), vec![1, 0, 0, 0, 0]);
}

#[test]
fn client_run_stops_at_the_name_question() {
    let protocol = init_protocol();
    let mut state = InitState::new(Side::Client);
    let mut channel = client_channel(vec![1, 0, 0, 0, 0]);
    assert_eq!(
        protocol.run_protocol(&mut state, &mut channel),
        Ok(Some(InitRequest::AskUsername))
    );
    assert_eq!(state.username, "");
    assert_eq!(channel.towards_server().flush(), vec![1, 0, 0, 0]);
}

#[test]
fn handshake_waits_for_input() {
    let protocol = init_protocol();
    let mut state = InitState::new(Side::Server);
    let mut channel = server_channel(vec![1, 0]);
    assert_eq!(protocol.run_protocol(&mut state, &mut channel), Err(NetError::UnexpectedEof));
    let mut run = protocol.start();
    let mut state = InitState::new(Side::Server);
    let mut channel = server_channel(vec![1, 0]);
    assert!(matches!(run.run(&mut state, &mut channel), StepOutcome::NeedInput));
    assert!(matches!(run.step(&mut state, &mut channel), StepOutcome::NeedInput));
    channel.towards_server().receive(&[0, 0]);
    assert!(matches!(run.step(&mut state, &mut channel), StepOutcome::Progress));
    assert_eq!(state.their_version(), 1);
}

#[test]
fn end_does_nothing() {
    let protocol: Protocol<InitStateAccessor> = Protocol::End();
    let mut state = InitState::new(Side::Client);
    let mut channel = client_channel(vec![]);
    assert_eq!(protocol.run_protocol(&mut state, &mut channel), Ok(None));
    assert_eq!(channel.towards_server().flush(), Vec::<u8>::new());
    let mut run = protocol.start();
    assert!(matches!(run.step(&mut state, &mut channel), StepOutcome::Progress));
    assert!(matches!(run.step(&mut state, &mut channel), StepOutcome::Done));
}

#[test]
fn transfer_of_absent_test_data_is_not_found() {
    let protocol: Protocol<InitStateAccessor> =
        Protocol::Transfer(Destination::ToServer, InitStateAccessor::TestData);
    let mut state = InitState::new(Side::Client);
    let mut channel = client_channel(vec![]);
    assert_eq!(protocol.run_protocol(&mut state, &mut channel), Err(NetError::NotFound));
}

#[test]
fn username_transfer() {
    let protocol: Protocol<InitStateAccessor> =
        Protocol::Transfer(Destination::ToServer, InitStateAccessor::Username);
    let mut client_state = InitState::new(Side::Client);
    client_state.username = "al".to_string();
    let mut client = client_channel(vec![]);
    assert_eq!(protocol.run_protocol(&mut client_state, &mut client), Ok(None));
    let bytes = client.towards_server().flush();
    assert_eq!(bytes, vec![2, 0, 0, 0, b'a', b'l']);
    let mut server_state = InitState::new(Side::Server);
    let mut server = server_channel(bytes);
    assert_eq!(protocol.run_protocol(&mut server_state, &mut server), Ok(None));
    assert_eq!(server_state.username, "al");
}

#[test]
fn new_state_is_fresh() {
    let s = InitState::new(Side::Client);
    assert_eq!(s.side(), Side::Client);
    assert_eq!(s.our_version(), CURRENT_VERSION);
    assert_eq!(s.their_version(), 0);
    assert_eq!(s.username, "");
    assert!(s.test_data().is_none());
}

#[test]
fn server_reports_no_test_after_agreeing() {
    let protocol = init_protocol();
    let mut state = InitState::new(Side::Server);
    let mut channel = server_channel(vec![1, 0, 0, 0, 0]);
    let mut run = protocol.start();
    match run.run(&mut state, &mut channel) {
        StepOutcome::Request(r) => assert_eq!(r, InitRequest::ReportNoTest),
        _ => panic!("expected a request"),
    }
    assert_eq!(state.their_version(), CURRENT_VERSION);
    assert_eq!(channel.towards_client().flush(), vec![1, 0, 0, 0, 0]);
    assert!(matches!(run.run(&mut state, &mut channel), StepOutcome::Done));
}

#[test]
fn client_asks_name_after_agreeing() {
    let protocol = init_protocol();
    let mut state = InitState::new(Side::Client);
    let mut channel = client_channel(vec![1, 0, 0, 0]);
    match run_once(&protocol, &mut state, &mut channel) {
        StepOutcome::Request(r) => assert_eq!(r, InitRequest::AskUsername),
        _ => panic!("expected a request"),
    }
    assert_eq!(channel.towards_server().flush(), vec![1, 0, 0, 0]);
}

fn run_once(
    protocol: &Protocol<InitStateAccessor>,
    state: &mut InitState,
    channel: &mut ChannelPair,
) -> StepOutcome<InitRequest> {
    let mut run = protocol.start();
    run.run(state, channel)
}

#[test]
fn end_in_a_chain_changes_nothing() {
    let transfer = || Protocol::Transfer(Destination::ToServer, InitStateAccessor::Username);
    let alone: Protocol<InitStateAccessor> = transfer();
    let before: Protocol<InitStateAccessor> = Protocol::Chain(vec![Protocol::End(), transfer()]);
    let after: Protocol<InitStateAccessor> = Protocol::Chain(vec![transfer(), Protocol::End()]);
    for protocol in [alone, before, after] {
        let mut state = InitState::new(Side::Client);
        state.username = "ed".to_string();
        let mut channel = client_channel(vec![]);
        assert_eq!(protocol.run_protocol(&mut state, &mut channel), Ok(None));
        assert_eq!(channel.towards_server().flush(), vec![2, 0, 0, 0, b'e', b'd']);
        assert_eq!(state.username, "ed");
    }
}

#[test]
fn chain_stops_at_the_first_failure() {
    let protocol: Protocol<InitStateAccessor> = Protocol::Chain(vec![
        Protocol::Transfer(Destination::ToServer, InitStateAccessor::OurVersion),
        Protocol::Transfer(Destination::ToServer, InitStateAccessor::TestData),
        Protocol::Transfer(Destination::ToServer, InitStateAccessor::OurVersion),
    ]);
    let mut state = InitState::new(Side::Client);
    let mut channel = client_channel(vec![]);
    assert_eq!(protocol.run_protocol(&mut state, &mut channel), Err(NetError::NotFound));
    assert_eq!(channel.towards_server().flush(), vec![1, 0, 0, 0]);
}

#[test]
fn next_step_names_what_comes() {
    let protocol = init_protocol();
    let mut run = protocol.start();
    let mut state = InitState::new(Side::Server);
    let mut channel = server_channel(vec![]);
    assert!(run.next_step() == NextStep::Chain);
    assert!(matches!(run.step(&mut state, &mut channel), StepOutcome::Progress));
    assert!(run.next_step() == NextStep::Exchange);
    assert!(matches!(run.step(&mut state, &mut channel), StepOutcome::Progress));
    assert!(run.next_step() == NextStep::Access(Route::OtherSide));
    assert!(matches!(run.step(&mut state, &mut channel), StepOutcome::Progress));
    assert!(run.next_step() == NextStep::Access(Route::ThisSide));
    assert!(matches!(run.step(&mut state, &mut channel), StepOutcome::NeedInput));
    assert!(run.next_step() == NextStep::Access(Route::ThisSide));
}
