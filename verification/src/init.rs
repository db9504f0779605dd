//! The chat's opening handshake: both sides exchange their protocol
//! versions, stop where these differ, and otherwise go on to the user's name
//! and an optional test transfer.
use crate::error::NetError;
use crate::connection::ChannelView;
use crate::le::le_bytes;
use crate::protocol::{
    lemma_run_steps, reversed_nodes, route_dir, spec_run, with_route, Destination, FrameView,
    Protocol, Route, StateAccess, StepOutcome, UpdateOutcome,
};
use crate::serialization::{
    test_read_failure_value, transfer, ReadWrite, Serializable, StreamView, Test,
};
use vstd::prelude::*;

verus! {

/// The version that a side has before it learns the other side's.
pub const UNKNOWN_VERSION: u32 = 0;

/// The version of the protocol that this library speaks.
pub const CURRENT_VERSION: u32 = 1;

/// Which end of a connection a state belongs to.
#[derive(Clone, Copy, Debug, PartialEq, Eq, Structural)]
pub enum Side {
    Server,
    Client,
}

/// The state of one side during the handshake.
pub struct InitState {
    side: Side,
    their_version: u32,
    our_version: u32,
    pub username: String,
    our_test: bool,
    their_test: bool,
    test_data: Option<Test>,
}

/// What an `InitState` holds, as plain values.
pub struct InitStateView {
    pub side: Side,
    pub their_version: u32,
    pub our_version: u32,
    pub username: Seq<char>,
    pub our_test: bool,
    pub their_test: bool,
    pub test_data: Option<(Seq<char>, i32)>,
}

impl DeepView for InitState {
    type V = InitStateView;

    closed spec fn deep_view(&self) -> InitStateView {
        InitStateView {
            side: self.side,
            their_version: self.their_version,
            our_version: self.our_version,
            username: self.username@,
            our_test: self.our_test,
            their_test: self.their_test,
            test_data: self.test_data.deep_view(),
        }
    }
}

impl InitState {
    /// The state of `side` before the handshake: the other side's version
    /// unknown, ours current, no name, no test.
    pub fn new(side: Side) -> (s: Self)
        ensures
            s.deep_view() == (InitStateView {
                side,
                their_version: UNKNOWN_VERSION,
                our_version: CURRENT_VERSION,
                username: Seq::empty(),
                our_test: false,
                their_test: false,
                test_data: None,
            }),
    {
        InitState {
            side,
            their_version: UNKNOWN_VERSION,
            our_version: CURRENT_VERSION,
            username: String::new(),
            our_test: false,
            their_test: false,
            test_data: None,
        }
    }

    /// The side that this state belongs to.
    pub fn side(&self) -> (s: Side)
        ensures
            s == self.deep_view().side,
    {
        self.side
    }

    /// The version that this side speaks.
    pub fn our_version(&self) -> (v: u32)
        ensures
            v == self.deep_view().our_version,
    {
        self.our_version
    }

    /// The version that the other side speaks, once it is known.
    pub fn their_version(&self) -> (v: u32)
        ensures
            v == self.deep_view().their_version,
    {
        self.their_version
    }

    /// The test value, where one is present.
    pub fn test_data(&self) -> (t: &Option<Test>)
        ensures
            t.deep_view() == self.deep_view().test_data,
    {
        &self.test_data
    }
}

/// The parts of an `InitState` that the handshake sends and receives.
#[derive(Clone, Copy, Debug, PartialEq, Eq, Structural)]
pub enum InitStateAccessor {
    OurVersion,
    TheirVersion,
    Username,
    OurTest,
    TheirTest,
    TestData,
}

/// The decisions that the handshake makes.
#[derive(Clone, Copy, Debug, PartialEq, Eq, Structural)]
pub enum InitCondition {
    /// The two sides' versions differ.
    VersionsDiffer,
    /// One of the two sides does not take part in the test.
    NoTest,
}

/// The changes that the handshake makes.
#[derive(Clone, Copy, Debug, PartialEq, Eq, Structural)]
pub enum InitUpdate {
    /// Ends the handshake with a version mismatch.
    RejectVersion,
    /// On the client, asks the user for a name.
    PreUsernameTransfer,
    /// Reports that no test takes place.
    NoTest,
    /// On the server, shows the test value that arrived.
    PostTestdataTransfer,
    /// Changes nothing.
    Nothing,
}

/// What the handshake needs from outside.
#[derive(Clone, Copy, Debug, PartialEq, Eq, Structural)]
pub enum InitRequest {
    /// Ask the user for a name, until one is given, and store it as `username`.
    AskUsername,
    /// Tell that no test takes place.
    ReportNoTest,
    /// Show the test value (`test_data`).
    ReportTestData,
}

impl StateAccess for InitStateAccessor {
    type State = InitState;

    type Condition = InitCondition;

    type Update = InitUpdate;

    type Request = InitRequest;

    open spec fn spec_access(&self, st: InitStateView, dir: StreamView) -> (
        InitStateView,
        StreamView,
        Result<(), NetError>,
    ) {
        match self {
            InitStateAccessor::OurVersion => {
                let (v, d, r) = transfer::<u32>(st.our_version, st.our_version, dir);
                (InitStateView { our_version: v, ..st }, d, r)
            },
            InitStateAccessor::TheirVersion => {
                let (v, d, r) = transfer::<u32>(st.their_version, st.their_version, dir);
                (InitStateView { their_version: v, ..st }, d, r)
            },
            InitStateAccessor::Username => {
                let (v, d, r) = transfer::<String>(st.username, st.username, dir);
                (InitStateView { username: v, ..st }, d, r)
            },
            InitStateAccessor::OurTest => {
                let (v, d, r) = transfer::<bool>(st.our_test, st.our_test, dir);
                (InitStateView { our_test: v, ..st }, d, r)
            },
            InitStateAccessor::TheirTest => {
                let (v, d, r) = transfer::<bool>(st.their_test, st.their_test, dir);
                (InitStateView { their_test: v, ..st }, d, r)
            },
            InitStateAccessor::TestData => match st.test_data {
                Some(t) => {
                    let (v, d, r) = transfer::<Test>(t, test_read_failure_value(t, dir.remaining()), dir);
                    (InitStateView { test_data: Some(v), ..st }, d, r)
                },
                None => (st, dir, Err(NetError::NotFound)),
            },
        }
    }

    open spec fn spec_holds(condition: InitCondition, st: InitStateView) -> bool {
        match condition {
            InitCondition::VersionsDiffer => st.their_version != st.our_version,
            InitCondition::NoTest => !st.their_test || !st.our_test,
        }
    }

    open spec fn spec_update(update: InitUpdate, st: InitStateView) -> (
        InitStateView,
        UpdateOutcome<InitRequest>,
    ) {
        match update {
            InitUpdate::RejectVersion => (
                st,
                UpdateOutcome::Finished(
                    Err(NetError::VersionMismatch { ours: st.our_version, theirs: st.their_version }),
                ),
            ),
            InitUpdate::PreUsernameTransfer => if st.side == Side::Client {
                (st, UpdateOutcome::Request(InitRequest::AskUsername))
            } else {
                (st, UpdateOutcome::Finished(Ok(())))
            },
            InitUpdate::NoTest => (st, UpdateOutcome::Request(InitRequest::ReportNoTest)),
            InitUpdate::PostTestdataTransfer => if st.side == Side::Server && st.test_data is Some {
                (st, UpdateOutcome::Request(InitRequest::ReportTestData))
            } else {
                (st, UpdateOutcome::Finished(Ok(())))
            },
            InitUpdate::Nothing => (st, UpdateOutcome::Finished(Ok(()))),
        }
    }

    open spec fn spec_nothing() -> InitUpdate {
        InitUpdate::Nothing
    }

    fn nothing() -> (u: InitUpdate) {
        InitUpdate::Nothing
    }

    proof fn lemma_nothing(state: InitStateView) {
    }

    fn access(&self, state: &mut InitState, direction: &mut ReadWrite) -> (r: Result<(), NetError>) {
        match self {
            InitStateAccessor::OurVersion => state.our_version.serialize(direction),
            InitStateAccessor::TheirVersion => state.their_version.serialize(direction),
            InitStateAccessor::Username => state.username.serialize(direction),
            InitStateAccessor::OurTest => state.our_test.serialize(direction),
            InitStateAccessor::TheirTest => state.their_test.serialize(direction),
            InitStateAccessor::TestData => match &mut state.test_data {
                Some(data) => data.serialize(direction),
                None => Err(NetError::NotFound),
            },
        }
    }

    fn holds(condition: &InitCondition, state: &InitState) -> (b: bool) {
        match condition {
            InitCondition::VersionsDiffer => state.their_version != state.our_version,
            InitCondition::NoTest => !state.their_test || !state.our_test,
        }
    }

    fn update(update: &InitUpdate, state: &mut InitState) -> (r: UpdateOutcome<InitRequest>) {
        match update {
            InitUpdate::RejectVersion => UpdateOutcome::Finished(
                Err(NetError::VersionMismatch { ours: state.our_version, theirs: state.their_version }),
            ),
            InitUpdate::PreUsernameTransfer => match state.side {
                Side::Client => UpdateOutcome::Request(InitRequest::AskUsername),
                Side::Server => UpdateOutcome::Finished(Ok(())),
            },
            InitUpdate::NoTest => UpdateOutcome::Request(InitRequest::ReportNoTest),
            InitUpdate::PostTestdataTransfer => match (state.side, &state.test_data) {
                (Side::Server, Some(_)) => UpdateOutcome::Request(InitRequest::ReportTestData),
                _ => UpdateOutcome::Finished(Ok(())),
            },
            InitUpdate::Nothing => UpdateOutcome::Finished(Ok(())),
        }
    }
}

/// The handshake: exchange versions; where they differ, fail with a version
/// mismatch; otherwise ask the client's user for a name, exchange whether
/// each side takes part in the test, and where both do, send the test value
/// to the server and show it there, else report that no test takes place.
pub open spec fn is_init_protocol(p: Protocol<InitStateAccessor>) -> bool {
    &&& p matches Protocol::Chain(steps)
    &&& steps@.len() == 2
    &&& steps@[0] == Protocol::<InitStateAccessor>::Exchange(
        InitStateAccessor::OurVersion,
        InitStateAccessor::TheirVersion,
    )
    &&& steps@[1] matches Protocol::Conditional(differ, mismatch, agreed)
    &&& differ == InitCondition::VersionsDiffer
    &&& *mismatch == Protocol::<InitStateAccessor>::Update(InitUpdate::RejectVersion)
    &&& *agreed matches Protocol::Chain(rest)
    &&& rest@.len() == 3
    &&& rest@[0] == Protocol::<InitStateAccessor>::Update(InitUpdate::PreUsernameTransfer)
    &&& rest@[1] == Protocol::<InitStateAccessor>::Exchange(
        InitStateAccessor::OurTest,
        InitStateAccessor::TheirTest,
    )
    &&& rest@[2] matches Protocol::Conditional(no_test, skipped, test)
    &&& no_test == InitCondition::NoTest
    &&& *skipped == Protocol::<InitStateAccessor>::Update(InitUpdate::NoTest)
    &&& *test matches Protocol::Chain(transfer)
    &&& transfer@.len() == 2
    &&& transfer@[0] == Protocol::<InitStateAccessor>::Transfer(
        Destination::ToServer,
        InitStateAccessor::TestData,
    )
    &&& transfer@[1] == Protocol::<InitStateAccessor>::Update(InitUpdate::PostTestdataTransfer)
}

/// Builds the handshake protocol.
pub fn init_protocol() -> (p: Protocol<InitStateAccessor>)
    ensures
        is_init_protocol(p),
{
    let mut transfer: Vec<Protocol<InitStateAccessor>> = Vec::new();
    transfer.push(Protocol::Transfer(Destination::ToServer, InitStateAccessor::TestData));
    transfer.push(Protocol::Update(InitUpdate::PostTestdataTransfer));
    let mut rest: Vec<Protocol<InitStateAccessor>> = Vec::new();
    rest.push(Protocol::Update(InitUpdate::PreUsernameTransfer));
    rest.push(Protocol::Exchange(InitStateAccessor::OurTest, InitStateAccessor::TheirTest));
    rest.push(
        Protocol::Conditional(
            InitCondition::NoTest,
            Box::new(Protocol::Update(InitUpdate::NoTest)),
            Box::new(Protocol::Chain(transfer)),
        ),
    );
    let mut steps: Vec<Protocol<InitStateAccessor>> = Vec::new();
    steps.push(Protocol::Exchange(InitStateAccessor::OurVersion, InitStateAccessor::TheirVersion));
    steps.push(
        Protocol::Conditional(
            InitCondition::VersionsDiffer,
            Box::new(Protocol::Update(InitUpdate::RejectVersion)),
            Box::new(Protocol::Chain(rest)),
        ),
    );
    Protocol::Chain(steps)
}

/// The channel after the version exchange: our version appended towards the
/// other side, and four bytes (theirs) consumed from this side.
pub open spec fn after_version_exchange(ch: ChannelView, ours: u32) -> ChannelView {
    let out = route_dir(ch, Route::OtherSide);
    let inp = route_dir(ch, Route::ThisSide);
    let ch1 = with_route(
        ch,
        Route::OtherSide,
        StreamView::Writing { written: out->written + le_bytes(ours as nat, 4) },
    );
    with_route(ch1, Route::ThisSide, StreamView::Reading { data: inp->data, pos: inp->pos + 4 })
}

/// The requirements of the handshake laws: the handshake protocol, a channel
/// whose direction towards the other side writes and whose direction towards
/// this side reads, the other side's version next, and then `rest`.
pub open spec fn handshake_setting(
    p: Protocol<InitStateAccessor>,
    ch: ChannelView,
    theirs: u32,
    rest: Seq<u8>,
) -> bool {
    &&& is_init_protocol(p)
    &&& ch.wf()
    &&& route_dir(ch, Route::OtherSide) is Writing
    &&& route_dir(ch, Route::ThisSide) is Reading
    &&& route_dir(ch, Route::ThisSide).remaining() == le_bytes(theirs as nat, 4) + rest
}

/// The first four steps of the handshake: our version goes out, theirs comes in.
proof fn lemma_versions_exchanged(
    p: Protocol<InitStateAccessor>,
    st: InitStateView,
    ch: ChannelView,
    theirs: u32,
    rest: Seq<u8>,
)
    requires
        handshake_setting(p, ch, theirs, rest),
    ensures
        p matches Protocol::Chain(steps) && spec_run(seq![FrameView::Node(p)], st, ch) == spec_run(
            seq![FrameView::Node(steps@[1])],
            InitStateView { their_version: theirs, ..st },
            after_version_exchange(ch, st.our_version),
        ),
{
    let ours = st.our_version;
    if let Protocol::Chain(steps) = p {
        let f0 = seq![FrameView::Node(p)];
        let f1 = seq![FrameView::Node(steps@[1]), FrameView::Node(steps@[0])];
        assert(f0.drop_last() + reversed_nodes(steps@) =~= f1);
        lemma_run_steps(f0, st, ch, f1, st, ch);

        let f2 = seq![
            FrameView::Node(steps@[1]),
            FrameView::Access(InitStateAccessor::TheirVersion, Route::ThisSide),
            FrameView::Access(InitStateAccessor::OurVersion, Route::OtherSide),
        ];
        assert(f1.drop_last().push(
            FrameView::Access(InitStateAccessor::TheirVersion, Route::ThisSide),
        ).push(FrameView::Access(InitStateAccessor::OurVersion, Route::OtherSide)) =~= f2);
        lemma_run_steps(f1, st, ch, f2, st, ch);

        let out = route_dir(ch, Route::OtherSide);
        let ch1 = with_route(
            ch,
            Route::OtherSide,
            StreamView::Writing { written: out->written + le_bytes(ours as nat, 4) },
        );
        let f3 = seq![
            FrameView::Node(steps@[1]),
            FrameView::Access(InitStateAccessor::TheirVersion, Route::ThisSide),
        ];
        assert(f2.drop_last() =~= f3);
        lemma_run_steps(f2, st, ch, f3, st, ch1);

        let inp = route_dir(ch, Route::ThisSide);
        assert(route_dir(ch1, Route::ThisSide) == inp);
        u32::lemma_parse_encode(theirs, rest);
        let st2 = InitStateView { their_version: theirs, ..st };
        let ch2 = after_version_exchange(ch, ours);
        let f4 = seq![FrameView::Node(steps@[1])];
        assert(f3.drop_last() =~= f4);
        lemma_run_steps(f3, st, ch1, f4, st2, ch2);
    }
}

/// Law: where the other side's version differs from ours, the handshake sends
/// our version, takes theirs, and fails with a version mismatch that names
/// both.
pub proof fn lemma_handshake_rejects_other_version(
    p: Protocol<InitStateAccessor>,
    st: InitStateView,
    ch: ChannelView,
    theirs: u32,
    rest: Seq<u8>,
)
    requires
        handshake_setting(p, ch, theirs, rest),
        theirs != st.our_version,
    ensures
        spec_run(seq![FrameView::Node(p)], st, ch) == (
            Seq::<FrameView<InitStateAccessor>>::empty(),
            InitStateView { their_version: theirs, ..st },
            after_version_exchange(ch, st.our_version),
            StepOutcome::<InitRequest>::Failed(
                NetError::VersionMismatch { ours: st.our_version, theirs },
            ),
        ),
{
    lemma_versions_exchanged(p, st, ch, theirs, rest);
    if let Protocol::Chain(steps) = p {
        let st2 = InitStateView { their_version: theirs, ..st };
        let ch2 = after_version_exchange(ch, st.our_version);
        let f4 = seq![FrameView::Node(steps@[1])];
        if let Protocol::Conditional(c, mismatch, agreed) = steps@[1] {
            let f5 = seq![FrameView::Node(*mismatch)];
            assert(f4.drop_last().push(FrameView::Node(*mismatch)) =~= f5);
            lemma_run_steps(f4, st2, ch2, f5, st2, ch2);
            assert(f5.drop_last() =~= Seq::<FrameView<InitStateAccessor>>::empty());
        }
    }
}

/// Law: where the other side speaks our version, the client's handshake sends
/// its version, takes the server's, and then asks for the user's name.
pub proof fn lemma_client_handshake_asks_name(
    p: Protocol<InitStateAccessor>,
    st: InitStateView,
    ch: ChannelView,
    rest: Seq<u8>,
)
    requires
        handshake_setting(p, ch, st.our_version, rest),
        st.side == Side::Client,
    ensures
        spec_run(seq![FrameView::Node(p)], st, ch).1 == (InitStateView {
            their_version: st.our_version,
            ..st
        }),
        spec_run(seq![FrameView::Node(p)], st, ch).2 == after_version_exchange(ch, st.our_version),
        spec_run(seq![FrameView::Node(p)], st, ch).3 == StepOutcome::<InitRequest>::Request(
            InitRequest::AskUsername,
        ),
{
    let theirs = st.our_version;
    lemma_versions_exchanged(p, st, ch, theirs, rest);
    if let Protocol::Chain(steps) = p {
        let st2 = InitStateView { their_version: theirs, ..st };
        let ch2 = after_version_exchange(ch, st.our_version);
        let f4 = seq![FrameView::Node(steps@[1])];
        if let Protocol::Conditional(c, mismatch, agreed) = steps@[1] {
            let f5 = seq![FrameView::Node(*agreed)];
            assert(f4.drop_last().push(FrameView::Node(*agreed)) =~= f5);
            lemma_run_steps(f4, st2, ch2, f5, st2, ch2);
            if let Protocol::Chain(rest_steps) = *agreed {
                let f6 = seq![
                    FrameView::Node(rest_steps@[2]),
                    FrameView::Node(rest_steps@[1]),
                    FrameView::Node(rest_steps@[0]),
                ];
                assert(f5.drop_last() + reversed_nodes(rest_steps@) =~= f6);
                lemma_run_steps(f5, st2, ch2, f6, st2, ch2);
            }
        }
    }
}

/// Law: where the client speaks our version and one of the two sides does not
/// take part in the test, the server's handshake sends its version and its
/// test flag, takes the client's version and test flag (the first byte of
/// `rest`), and then reports that no test takes place.
pub proof fn lemma_server_handshake_without_test(
    p: Protocol<InitStateAccessor>,
    st: InitStateView,
    ch: ChannelView,
    rest: Seq<u8>,
)
    requires
        handshake_setting(p, ch, st.our_version, rest),
        st.side == Side::Server,
        rest.len() >= 1,
        !(st.our_test && rest[0] != 0),
    ensures
        ({
            let (frames, st_end, ch_end, outcome) = spec_run(seq![FrameView::Node(p)], st, ch);
            let out = route_dir(ch, Route::OtherSide);
            let inp = route_dir(ch, Route::ThisSide);
            &&& outcome == StepOutcome::<InitRequest>::Request(InitRequest::ReportNoTest)
            &&& st_end == InitStateView {
                their_version: st.our_version,
                their_test: rest[0] != 0,
                ..st
            }
            &&& route_dir(ch_end, Route::OtherSide) == StreamView::Writing {
                written: out->written + le_bytes(st.our_version as nat, 4) + seq![
                    if st.our_test {
                        1u8
                    } else {
                        0u8
                    },
                ],
            }
            &&& route_dir(ch_end, Route::ThisSide) == StreamView::Reading {
                data: inp->data,
                pos: inp->pos + 5,
            }
        }),
{
    let ours = st.our_version;
    lemma_versions_exchanged(p, st, ch, ours, rest);
    if let Protocol::Chain(steps) = p {
        let st2 = InitStateView { their_version: ours, ..st };
        let ch2 = after_version_exchange(ch, ours);
        let out = route_dir(ch, Route::OtherSide);
        let inp = route_dir(ch, Route::ThisSide);
        let f4 = seq![FrameView::Node(steps@[1])];
        if let Protocol::Conditional(c, mismatch, agreed) = steps@[1] {
            let f5 = seq![FrameView::Node(*agreed)];
            assert(f4.drop_last().push(FrameView::Node(*agreed)) =~= f5);
            lemma_run_steps(f4, st2, ch2, f5, st2, ch2);
            if let Protocol::Chain(rest_steps) = *agreed {
                let f6 = seq![
                    FrameView::Node(rest_steps@[2]),
                    FrameView::Node(rest_steps@[1]),
                    FrameView::Node(rest_steps@[0]),
                ];
                assert(f5.drop_last() + reversed_nodes(rest_steps@) =~= f6);
                lemma_run_steps(f5, st2, ch2, f6, st2, ch2);

                let f7 = seq![FrameView::Node(rest_steps@[2]), FrameView::Node(rest_steps@[1])];
                assert(f6.drop_last() =~= f7);
                lemma_run_steps(f6, st2, ch2, f7, st2, ch2);

                let f8 = seq![
                    FrameView::Node(rest_steps@[2]),
                    FrameView::Access(InitStateAccessor::TheirTest, Route::ThisSide),
                    FrameView::Access(InitStateAccessor::OurTest, Route::OtherSide),
                ];
                assert(f7.drop_last().push(
                    FrameView::Access(InitStateAccessor::TheirTest, Route::ThisSide),
                ).push(FrameView::Access(InitStateAccessor::OurTest, Route::OtherSide)) =~= f8);
                lemma_run_steps(f7, st2, ch2, f8, st2, ch2);

                let flag = seq![
                    if st.our_test {
                        1u8
                    } else {
                        0u8
                    },
                ];
                let out2 = route_dir(ch2, Route::OtherSide);
                let ch3 = with_route(
                    ch2,
                    Route::OtherSide,
                    StreamView::Writing { written: out2->written + flag },
                );
                let f9 = seq![
                    FrameView::Node(rest_steps@[2]),
                    FrameView::Access(InitStateAccessor::TheirTest, Route::ThisSide),
                ];
                assert(f8.drop_last() =~= f9);
                lemma_run_steps(f8, st2, ch2, f9, st2, ch3);

                let inp3 = route_dir(ch3, Route::ThisSide);
                assert(inp3 == StreamView::Reading { data: inp->data, pos: inp->pos + 4 });
                assert(inp->data.skip(inp->pos as int) == le_bytes(ours as nat, 4) + rest);
                assert(inp3.remaining() =~= rest) by {
                    crate::le::lemma_le_bytes_len(ours as nat, 4);
                    assert(inp->data.skip(inp->pos as int).skip(4) =~= rest);
                    assert(inp->data.skip((inp->pos + 4) as int) =~= inp->data.skip(inp->pos as int).skip(
                        4,
                    ));
                };
                let st3 = InitStateView { their_test: rest[0] != 0, ..st2 };
                let ch4 = with_route(
                    ch3,
                    Route::ThisSide,
                    StreamView::Reading { data: inp->data, pos: inp->pos + 5 },
                );
                let f10 = seq![FrameView::Node(rest_steps@[2])];
                assert(f9.drop_last() =~= f10);
                lemma_run_steps(f9, st2, ch3, f10, st3, ch4);

                if let Protocol::Conditional(c2, skipped, test) = rest_steps@[2] {
                    let f11 = seq![FrameView::Node(*skipped)];
                    assert(f10.drop_last().push(FrameView::Node(*skipped)) =~= f11);
                    lemma_run_steps(f10, st3, ch4, f11, st3, ch4);
                    assert(f11.drop_last() =~= Seq::<FrameView<InitStateAccessor>>::empty());
                    assert(out2->written == out->written + le_bytes(ours as nat, 4));
                }
            }
        }
    }
}

} // verus!
