//! A small language for handshakes: send or receive parts of a state, decide
//! on the state, update it; and an interpreter for it that runs one step at a
//! time, so that whoever drives it can move bytes over the network and serve
//! requests for outside interaction in between.
use crate::connection::{ChannelPair, ChannelView};
use crate::error::NetError;
use crate::serialization::{ReadWrite, StreamView};
use vstd::prelude::*;

verus! {

/// Where a `Transfer` sends a part of the state.
#[derive(Clone, Copy, PartialEq, Eq, Structural)]
pub enum Destination {
    ToServer,
    ToClient,
}

/// What applying an update gives: it is done (successfully or not), or it
/// needs something from outside the protocol (such as asking the user).
pub enum UpdateOutcome<R> {
    Finished(Result<(), NetError>),
    Request(R),
}

/// The parts of a state that a protocol can send or receive, and the
/// decisions and updates that it can make on the state.
pub trait StateAccess: Sized {
    /// The state that the protocol works on.
    type State: DeepView;

    /// A decision on the state.
    type Condition;

    /// A change of the state.
    type Update;

    /// A request for outside interaction that an update can make.
    type Request;

    /// What `access` does: sends the accessed part of the state to, or
    /// receives it from, `dir`.
    spec fn spec_access(
        &self,
        state: <Self::State as DeepView>::V,
        dir: StreamView,
    ) -> (<Self::State as DeepView>::V, StreamView, Result<(), NetError>);

    /// Whether `condition` holds of `state`.
    spec fn spec_holds(condition: Self::Condition, state: <Self::State as DeepView>::V) -> bool;

    /// What `update` does to `state`, and its outcome.
    spec fn spec_update(update: Self::Update, state: <Self::State as DeepView>::V) -> (
        <Self::State as DeepView>::V,
        UpdateOutcome<Self::Request>,
    );

    /// Sends the accessed part of `state` to, or receives it from,
    /// `direction`. Reading keeps the bytes and only moves forward.
    fn access(&self, state: &mut Self::State, direction: &mut ReadWrite) -> (r: Result<
        (),
        NetError,
    >)
        requires
            old(direction)@.wf(),
        ensures
            final(direction)@.wf(),
            (final(state).deep_view(), final(direction)@, r) == self.spec_access(
                old(state).deep_view(),
                old(direction)@,
            ),
            old(direction)@ is Reading ==> {
                &&& final(direction)@ is Reading
                &&& final(direction)@->data == old(direction)@->data
                &&& final(direction)@->pos >= old(direction)@->pos
            },
    ;

    /// Decides `condition` on `state`.
    fn holds(condition: &Self::Condition, state: &Self::State) -> (b: bool)
        ensures
            b == Self::spec_holds(*condition, state.deep_view()),
    ;

    /// Applies `update` to `state`.
    fn update(update: &Self::Update, state: &mut Self::State) -> (r: UpdateOutcome<Self::Request>)
        ensures
            (final(state).deep_view(), r) == Self::spec_update(*update, old(state).deep_view()),
    ;

    /// The update that leaves the state as it is and succeeds.
    spec fn spec_nothing() -> Self::Update;

    /// Makes the update that leaves the state as it is and succeeds.
    fn nothing() -> (u: Self::Update)
        ensures
            u == Self::spec_nothing(),
    ;

    /// The update `spec_nothing` changes no state and succeeds.
    proof fn lemma_nothing(state: <Self::State as DeepView>::V)
        ensures
            Self::spec_update(Self::spec_nothing(), state) == (
                state,
                UpdateOutcome::<Self::Request>::Finished(Ok(())),
            ),
    ;
}

/// A handshake protocol over the state of `A`.
pub enum Protocol<A: StateAccess> {
    /// The protocols one after the other.
    Chain(Vec<Protocol<A>>),
    /// The first protocol where the condition holds, else the second.
    Conditional(A::Condition, Box<Protocol<A>>, Box<Protocol<A>>),
    /// Changes the state.
    Update(A::Update),
    /// Sends the first part to the other side, then receives the second part from it.
    Exchange(A, A),
    /// Sends a part in the direction given.
    Transfer(Destination, A),
}

/// Which direction of a channel an access uses.
#[derive(Clone, Copy, PartialEq, Eq, Structural)]
pub enum Route {
    ToServer,
    ToClient,
    OtherSide,
    ThisSide,
}

/// What remains to be done: a protocol to run, or a part of the state to move.
pub enum FrameView<A: StateAccess> {
    Node(Protocol<A>),
    Access(A, Route),
}

/// The size of a protocol: how many steps it takes at most.
pub open spec fn protocol_size<A: StateAccess>(p: Protocol<A>) -> nat
    decreases p,
{
    match p {
        Protocol::Chain(v) => 1 + protocols_size(v@),
        Protocol::Conditional(_, a, b) => 1 + protocol_size(*a) + protocol_size(*b),
        Protocol::Update(_) => 1,
        Protocol::Exchange(_, _) => 3,
        Protocol::Transfer(_, _) => 2,
    }
}

/// The sizes of `ps`, added up.
pub open spec fn protocols_size<A: StateAccess>(ps: Seq<Protocol<A>>) -> nat
    decreases ps,
{
    if ps.len() == 0 {
        0
    } else {
        protocols_size(ps.subrange(0, ps.len() - 1)) + protocol_size(ps[ps.len() - 1])
    }
}

/// The size of what remains to be done for one frame.
pub open spec fn frame_size<A: StateAccess>(f: FrameView<A>) -> nat {
    match f {
        FrameView::Node(p) => protocol_size(p),
        FrameView::Access(_, _) => 1,
    }
}

/// The sizes of `fs`, added up.
pub open spec fn frames_size<A: StateAccess>(fs: Seq<FrameView<A>>) -> nat
    decreases fs.len(),
{
    if fs.len() == 0 {
        0
    } else {
        frames_size(fs.drop_last()) + frame_size(fs.last())
    }
}

/// What a step of the interpreter reports.
pub enum StepOutcome<R> {
    /// A step was taken; there may be more to do.
    Progress,
    /// A value must be read and not all of its bytes have arrived; the
    /// channel is as it was (the part of the state that the read reached
    /// may have been filled in), and the same step is taken again, reading
    /// the value anew, once more bytes are there.
    NeedInput,
    /// An update needs outside interaction; it is done once that interaction is.
    Request(R),
    /// Nothing is left to do.
    Done,
    /// The protocol failed.
    Failed(NetError),
}

/// Whether `route` names the direction towards the server, seen from the side of `ch`.
pub open spec fn names_to_server(ch: ChannelView, route: Route) -> bool {
    match route {
        Route::ToServer => true,
        Route::ToClient => false,
        Route::OtherSide => !ch.is_server,
        Route::ThisSide => ch.is_server,
    }
}

/// The direction that `route` names, seen from the side of `ch`.
pub open spec fn route_dir(ch: ChannelView, route: Route) -> StreamView {
    if names_to_server(ch, route) {
        ch.to_server
    } else {
        ch.to_client
    }
}

/// `ch` with the direction that `route` names replaced by `d`.
pub open spec fn with_route(ch: ChannelView, route: Route, d: StreamView) -> ChannelView {
    if names_to_server(ch, route) {
        ChannelView { to_server: d, ..ch }
    } else {
        ChannelView { to_client: d, ..ch }
    }
}

/// The route that a `Transfer` to `d` takes.
pub open spec fn destination_route(d: Destination) -> Route {
    match d {
        Destination::ToServer => Route::ToServer,
        Destination::ToClient => Route::ToClient,
    }
}

/// Frames for the protocols `ps`, the first of them last (on top).
pub open spec fn reversed_nodes<A: StateAccess>(ps: Seq<Protocol<A>>) -> Seq<FrameView<A>> {
    Seq::new(ps.len(), |i: int| FrameView::Node(ps[ps.len() - 1 - i]))
}

/// One step of the interpreter on the frames `frames` (the last one on top),
/// the state `st` and the channel `ch`: the new frames, state and channel, and
/// what the step reports.
pub open spec fn spec_step<A: StateAccess>(
    frames: Seq<FrameView<A>>,
    st: <A::State as DeepView>::V,
    ch: ChannelView,
) -> (Seq<FrameView<A>>, <A::State as DeepView>::V, ChannelView, StepOutcome<A::Request>) {
    if frames.len() == 0 {
        (frames, st, ch, StepOutcome::Done)
    } else {
        let rest = frames.drop_last();
        match frames.last() {
            FrameView::Node(p) => match p {
                Protocol::Chain(v) => (rest + reversed_nodes(v@), st, ch, StepOutcome::Progress),
                Protocol::Conditional(c, a, b) => (
                    rest.push(
                        FrameView::Node(
                            if A::spec_holds(c, st) {
                                *a
                            } else {
                                *b
                            },
                        ),
                    ),
                    st,
                    ch,
                    StepOutcome::Progress,
                ),
                Protocol::Update(u) => {
                    let (st2, out) = A::spec_update(u, st);
                    match out {
                        UpdateOutcome::Finished(Ok(())) => (rest, st2, ch, StepOutcome::Progress),
                        UpdateOutcome::Finished(Err(e)) => (rest, st2, ch, StepOutcome::Failed(e)),
                        UpdateOutcome::Request(r) => (rest, st2, ch, StepOutcome::Request(r)),
                    }
                },
                Protocol::Exchange(s, r) => (
                    rest.push(FrameView::Access(r, Route::ThisSide)).push(
                        FrameView::Access(s, Route::OtherSide),
                    ),
                    st,
                    ch,
                    StepOutcome::Progress,
                ),
                Protocol::Transfer(d, a) => (
                    rest.push(FrameView::Access(a, destination_route(d))),
                    st,
                    ch,
                    StepOutcome::Progress,
                ),
            },
            FrameView::Access(a, route) => {
                let (st2, d2, res) = a.spec_access(st, route_dir(ch, route));
                match res {
                    Ok(()) => (rest, st2, with_route(ch, route, d2), StepOutcome::Progress),
                    Err(NetError::UnexpectedEof) => if route_dir(ch, route) is Reading {
                        (frames, st2, ch, StepOutcome::NeedInput)
                    } else {
                        (rest, st2, with_route(ch, route, d2), StepOutcome::Failed(NetError::UnexpectedEof))
                    },
                    Err(e) => (rest, st2, with_route(ch, route, d2), StepOutcome::Failed(e)),
                }
            },
        }
    }
}

/// Sizes of frames add up over concatenation.
pub proof fn lemma_frames_size_concat<A: StateAccess>(a: Seq<FrameView<A>>, b: Seq<FrameView<A>>)
    ensures
        frames_size(a + b) == frames_size(a) + frames_size(b),
    decreases b.len(),
{
    if b.len() == 0 {
        assert(a + b =~= a);
    } else {
        lemma_frames_size_concat(a, b.drop_last());
        assert((a + b).drop_last() =~= a + b.drop_last());
    }
}

/// The frames of a chain's parts are as large as the parts.
pub proof fn lemma_reversed_nodes_size<A: StateAccess>(ps: Seq<Protocol<A>>)
    ensures
        frames_size(reversed_nodes(ps)) == protocols_size(ps),
    decreases ps.len(),
{
    if ps.len() > 0 {
        let init = ps.subrange(0, ps.len() - 1);
        lemma_reversed_nodes_size(init);
        assert(reversed_nodes(ps) =~= seq![FrameView::Node(ps[ps.len() - 1])] + reversed_nodes(
            init,
        ));
        let first = seq![FrameView::Node(ps[ps.len() - 1])];
        lemma_frames_size_concat(first, reversed_nodes(init));
        assert(first.drop_last() =~= Seq::<FrameView<A>>::empty());
        assert(frames_size(first.drop_last()) == 0);
        assert(frames_size(first) == protocol_size(ps[ps.len() - 1]));
        assert(protocols_size(ps) == protocols_size(init) + protocol_size(ps[ps.len() - 1]));
    } else {
        assert(reversed_nodes(ps) =~= Seq::<FrameView<A>>::empty());
    }
}

/// A step that makes progress leaves less to do.
pub proof fn lemma_step_decreases<A: StateAccess>(
    frames: Seq<FrameView<A>>,
    st: <A::State as DeepView>::V,
    ch: ChannelView,
)
    ensures
        spec_step(frames, st, ch).3 is Progress || spec_step(frames, st, ch).3 is Request
            ==> frames_size(spec_step(frames, st, ch).0) < frames_size(frames),
        spec_step(frames, st, ch).3 is Progress ==> frames.len() > 0,
{
    let next = spec_step(frames, st, ch);
    if frames.len() > 0 {
        let rest = frames.drop_last();
        assert(frames_size(frames) == frames_size(rest) + frame_size(frames.last()));
        match frames.last() {
            FrameView::Node(p) => match p {
                Protocol::Chain(v) => {
                    lemma_frames_size_concat(rest, reversed_nodes(v@));
                    lemma_reversed_nodes_size(v@);
                    assert(next.0 == rest + reversed_nodes(v@));
                    assert(frames_size(next.0) < frames_size(frames));
                },
                Protocol::Conditional(c, a, b) => {
                    let chosen = if A::spec_holds(c, st) {
                        *a
                    } else {
                        *b
                    };
                    assert(next.0 == rest.push(FrameView::Node(chosen)));
                    assert(rest.push(FrameView::Node(chosen)).drop_last() =~= rest);
                    assert(frames_size(next.0) < frames_size(frames));
                },
                Protocol::Update(u) => {
                    assert(next.0 == rest);
                    assert(frames_size(next.0) < frames_size(frames));
                },
                Protocol::Exchange(s, r) => {
                    let one = rest.push(FrameView::Access(r, Route::ThisSide));
                    assert(one.drop_last() =~= rest);
                    let two = one.push(FrameView::Access(s, Route::OtherSide));
                    assert(two.drop_last() =~= one);
                    assert(next.0 == two);
                    assert(frames_size(one) == frames_size(rest) + 1);
                    assert(frames_size(two) == frames_size(one) + 1);
                    assert(frame_size(frames.last()) == 3);
                    assert(frames_size(next.0) < frames_size(frames));
                },
                Protocol::Transfer(d, a) => {
                    assert(rest.push(FrameView::Access(a, destination_route(d))).drop_last()
                        =~= rest);
                    assert(frames_size(next.0) < frames_size(frames));
                },
            },
            FrameView::Access(a, route) => {
                assert(next.3 is Progress || next.3 is Request ==> next.0 == rest);
            },
        }
    }
}

/// Steps of the interpreter, taken as long as they make progress: the frames,
/// state and channel where they stop, and what the last step reports.
pub open spec fn spec_run<A: StateAccess>(
    frames: Seq<FrameView<A>>,
    st: <A::State as DeepView>::V,
    ch: ChannelView,
) -> (Seq<FrameView<A>>, <A::State as DeepView>::V, ChannelView, StepOutcome<A::Request>)
    decreases frames_size(frames),
{
    let (f2, s2, c2, o) = spec_step(frames, st, ch);
    if o is Progress {
        proof {
            lemma_step_decreases(frames, st, ch);
        }
        spec_run(f2, s2, c2)
    } else {
        (f2, s2, c2, o)
    }
}

/// A step that makes progress hands the run on: the run goes on from the
/// frames, state and channel that the step leaves.
pub proof fn lemma_run_steps<A: StateAccess>(
    frames: Seq<FrameView<A>>,
    st: <A::State as DeepView>::V,
    ch: ChannelView,
    next_frames: Seq<FrameView<A>>,
    next_st: <A::State as DeepView>::V,
    next_ch: ChannelView,
)
    requires
        spec_step(frames, st, ch) == (next_frames, next_st, next_ch, StepOutcome::<
            A::Request,
        >::Progress),
    ensures
        spec_run(frames, st, ch) == spec_run(next_frames, next_st, next_ch),
{
}

/// A run keeps the side of the channel.
pub proof fn lemma_run_keeps_side<A: StateAccess>(
    frames: Seq<FrameView<A>>,
    st: <A::State as DeepView>::V,
    ch: ChannelView,
)
    ensures
        spec_run(frames, st, ch).2.is_server == ch.is_server,
    decreases frames_size(frames),
{
    lemma_step_decreases(frames, st, ch);
    let (f2, s2, c2, o) = spec_step(frames, st, ch);
    assert(c2.is_server == ch.is_server);
    if o is Progress {
        lemma_run_keeps_side(f2, s2, c2);
    }
}

/// What `run_protocol` gives for the outcome `o` of a run: `Ok(None)` where
/// the run is done, `Ok(Some(r))` where it stopped at the request `r` for
/// outside interaction, the failure where it failed, and `UnexpectedEof`
/// where it waits for bytes that are not there.
pub open spec fn run_result<R>(o: StepOutcome<R>) -> Result<Option<R>, NetError> {
    match o {
        StepOutcome::Request(r) => Ok(Some(r)),
        StepOutcome::Failed(e) => Err(e),
        StepOutcome::NeedInput => Err(NetError::UnexpectedEof),
        _ => Ok(None),
    }
}

/// A run never leaves more to do than there was, and after a request less.
pub proof fn lemma_run_decreases<A: StateAccess>(
    frames: Seq<FrameView<A>>,
    st: <A::State as DeepView>::V,
    ch: ChannelView,
)
    ensures
        spec_run(frames, st, ch).3 is Request ==> frames_size(spec_run(frames, st, ch).0)
            < frames_size(frames),
        !(spec_run(frames, st, ch).3 is Progress),
    decreases frames_size(frames),
{
    lemma_step_decreases(frames, st, ch);
    let (f2, s2, c2, o) = spec_step(frames, st, ch);
    if o is Progress {
        lemma_run_decreases(f2, s2, c2);
    }
}

/// What remains to be done, with references into the protocol being run.
pub enum Frame<'p, A: StateAccess> {
    Node(&'p Protocol<A>),
    Access(&'p A, Route),
}

impl<'p, A: StateAccess> View for Frame<'p, A> {
    type V = FrameView<A>;

    open spec fn view(&self) -> FrameView<A> {
        match self {
            Frame::Node(p) => FrameView::Node(**p),
            Frame::Access(a, r) => FrameView::Access(**a, *r),
        }
    }
}

/// A run of a protocol in progress: what remains to be done, the next step on top.
pub struct ProtocolRun<'p, A: StateAccess> {
    pending: Vec<Frame<'p, A>>,
}

impl<'p, A: StateAccess> View for ProtocolRun<'p, A> {
    type V = Seq<FrameView<A>>;

    closed spec fn view(&self) -> Seq<FrameView<A>> {
        Seq::new(self.pending@.len(), |i: int| self.pending@[i]@)
    }
}

/// The direction of `channel` that `route` names.
fn route_mut<'c>(channel: &'c mut ChannelPair, route: Route) -> (r: &'c mut ReadWrite)
    ensures
        r@ == route_dir(old(channel)@, route),
        final(channel)@ == with_route(old(channel)@, route, final(r)@),
{
    match route {
        Route::ToServer => channel.towards_server(),
        Route::ToClient => channel.towards_client(),
        Route::OtherSide => channel.towards_other_side(),
        Route::ThisSide => channel.towards_this_side(),
    }
}

impl<'p, A: StateAccess> ProtocolRun<'p, A> {
    /// A run that has all of `protocol` still to do.
    pub fn new(protocol: &'p Protocol<A>) -> (r: Self)
        ensures
            r@ == seq![FrameView::Node(*protocol)],
    {
        let mut pending: Vec<Frame<'p, A>> = Vec::new();
        pending.push(Frame::Node(protocol));
        let r = ProtocolRun { pending };
        assert(r@ =~= seq![FrameView::Node(*protocol)]);
        r
    }

    fn push(&mut self, frame: Frame<'p, A>)
        ensures
            final(self)@ == old(self)@.push(frame@),
    {
        self.pending.push(frame);
        assert(self@ =~= old(self)@.push(frame@));
    }

    /// Takes one step of the run.
    pub fn step(&mut self, state: &mut A::State, channel: &mut ChannelPair) -> (o: StepOutcome<
        A::Request,
    >)
        requires
            old(channel)@.wf(),
        ensures
            final(channel)@.wf(),
            (final(self)@, final(state).deep_view(), final(channel)@, o) == spec_step(
                old(self)@,
                old(state).deep_view(),
                old(channel)@,
            ),
    {
        let ghost frames = self@;
        let top = self.pending.pop();
        match top {
            None => {
                assert(frames =~= Seq::<FrameView<A>>::empty());
                StepOutcome::Done
            },
            Some(frame) => {
                assert(self@ =~= frames.drop_last());
                assert(frame@ == frames.last());
                match frame {
                    Frame::Node(p) => match p {
                        Protocol::Chain(content) => {
                            let n = content.len();
                            let mut i = n;
                            assert(reversed_nodes(content@).take(0) =~= Seq::<FrameView<A>>::empty());
                            assert(self@ =~= frames.drop_last() + reversed_nodes(content@).take(0));
                            while i > 0
                                invariant
                                    i <= n,
                                    n == content@.len(),
                                    self@ == frames.drop_last() + reversed_nodes(content@).take(
                                        n - i,
                                    ),
                                decreases i,
                            {
                                i = i - 1;
                                self.push(Frame::Node(&content[i]));
                                assert(reversed_nodes(content@).take(n - i) =~= reversed_nodes(
                                    content@,
                                ).take(n - i - 1).push(FrameView::Node(content@[i as int])));
                                assert(self@ =~= frames.drop_last() + reversed_nodes(content@).take(
                                    n - i,
                                ));
                            }
                            assert(reversed_nodes(content@).take(n as int) =~= reversed_nodes(
                                content@,
                            ));
                            StepOutcome::Progress
                        },
                        Protocol::Conditional(condition, when, otherwise) => {
                            if A::holds(condition, state) {
                                self.push(Frame::Node(&**when));
                            } else {
                                self.push(Frame::Node(&**otherwise));
                            }
                            StepOutcome::Progress
                        },
                        Protocol::Update(update) => {
                            match A::update(update, state) {
                                UpdateOutcome::Finished(Ok(())) => StepOutcome::Progress,
                                UpdateOutcome::Finished(Err(e)) => StepOutcome::Failed(e),
                                UpdateOutcome::Request(r) => StepOutcome::Request(r),
                            }
                        },
                        Protocol::Exchange(sending, receiving) => {
                            self.push(Frame::Access(receiving, Route::ThisSide));
                            self.push(Frame::Access(sending, Route::OtherSide));
                            StepOutcome::Progress
                        },
                        Protocol::Transfer(destination, accessor) => {
                            let route = match destination {
                                Destination::ToServer => Route::ToServer,
                                Destination::ToClient => Route::ToClient,
                            };
                            self.push(Frame::Access(accessor, route));
                            StepOutcome::Progress
                        },
                    },
                    Frame::Access(accessor, route) => {
                        let ghost ch = channel@;
                        let direction = route_mut(channel, route);
                        let ghost d0 = direction@;
                        let reading = !direction.is_write();
                        let mark = direction.position();
                        match accessor.access(state, direction) {
                            Ok(()) => StepOutcome::Progress,
                            Err(e) => {
                                if reading && e == NetError::UnexpectedEof {
                                    direction.rewind(mark);
                                    assert(direction@ == d0);
                                    assert(with_route(ch, route, d0) == ch);
                                    self.push(Frame::Access(accessor, route));
                                    assert(self@ =~= frames);
                                    StepOutcome::NeedInput
                                } else {
                                    StepOutcome::Failed(e)
                                }
                            },
                        }
                    },
                }
            },
        }
    }
}

/// What the next step of a run works on.
#[derive(Clone, Copy, PartialEq, Eq, Structural)]
pub enum NextStep {
    /// Nothing is left to do.
    Nothing,
    /// A chain, whose parts are laid out.
    Chain,
    /// A conditional, which decides.
    Conditional,
    /// An update of the state.
    Update,
    /// An exchange, whose two parts are laid out.
    Exchange,
    /// A transfer in the direction given, whose part is laid out.
    Transfer(Destination),
    /// A part of the state that moves over the direction that the route names.
    Access(Route),
}

/// What the next step on the frames `frames` works on.
pub open spec fn next_step_of<A: StateAccess>(frames: Seq<FrameView<A>>) -> NextStep {
    if frames.len() == 0 {
        NextStep::Nothing
    } else {
        match frames.last() {
            FrameView::Node(p) => match p {
                Protocol::Chain(_) => NextStep::Chain,
                Protocol::Conditional(_, _, _) => NextStep::Conditional,
                Protocol::Update(_) => NextStep::Update,
                Protocol::Exchange(_, _) => NextStep::Exchange,
                Protocol::Transfer(d, _) => NextStep::Transfer(d),
            },
            FrameView::Access(_, route) => NextStep::Access(route),
        }
    }
}

impl<'p, A: StateAccess> ProtocolRun<'p, A> {
    /// What the next step of this run works on.
    pub fn next_step(&self) -> (n: NextStep)
        ensures
            n == next_step_of(self@),
    {
        let len = self.pending.len();
        if len == 0 {
            NextStep::Nothing
        } else {
            assert(self@.last() == self.pending@[len - 1]@);
            match &self.pending[len - 1] {
                Frame::Node(p) => match p {
                    Protocol::Chain(_) => NextStep::Chain,
                    Protocol::Conditional(_, _, _) => NextStep::Conditional,
                    Protocol::Update(_) => NextStep::Update,
                    Protocol::Exchange(_, _) => NextStep::Exchange,
                    Protocol::Transfer(d, _) => NextStep::Transfer(*d),
                },
                Frame::Access(_, route) => NextStep::Access(*route),
            }
        }
    }

    /// Takes steps as long as they make progress, and reports why it stopped.
    pub fn run(&mut self, state: &mut A::State, channel: &mut ChannelPair) -> (o: StepOutcome<
        A::Request,
    >)
        requires
            old(channel)@.wf(),
        ensures
            final(channel)@.wf(),
            (final(self)@, final(state).deep_view(), final(channel)@, o) == spec_run(
                old(self)@,
                old(state).deep_view(),
                old(channel)@,
            ),
    {
        loop
            invariant
                channel@.wf(),
                spec_run(self@, state.deep_view(), channel@) == spec_run(
                    old(self)@,
                    old(state).deep_view(),
                    old(channel)@,
                ),
            decreases frames_size(self@),
        {
            let ghost frames = self@;
            let ghost st = state.deep_view();
            let ghost ch = channel@;
            let o = self.step(state, channel);
            proof {
                lemma_step_decreases(frames, st, ch);
            }
            match o {
                StepOutcome::Progress => {},
                _ => {
                    return o;
                },
            }
        }
    }
}

impl<A: StateAccess> Protocol<A> {
    /// The protocol that does nothing: an update that leaves the state as it is.
    #[allow(non_snake_case)]
    pub fn End() -> (p: Self)
        ensures
            p == Protocol::<A>::Update(A::spec_nothing()),
    {
        Protocol::Update(A::nothing())
    }

    /// A run of this protocol, all of it still to do.
    pub fn start(&self) -> (r: ProtocolRun<'_, A>)
        ensures
            r@ == seq![FrameView::Node(*self)],
    {
        ProtocolRun::new(self)
    }

    /// Runs this protocol over `channel` until it is done, fails, or comes to
    /// a request for outside interaction (such as asking the user), where it
    /// stops and hands the request back; a run that waits for bytes that are
    /// not there fails with `UnexpectedEof`. What it does is the recursive
    /// reading `eval_protocol` of the protocol.
    pub fn run_protocol(&self, state: &mut A::State, channel: &mut ChannelPair) -> (r: Result<
        Option<A::Request>,
        NetError,
    >)
        requires
            old(channel)@.wf(),
        ensures
            final(channel)@.wf(),
            final(channel)@.is_server == old(channel)@.is_server,
            ({
                let (_, st, ch, o) = spec_run(
                    seq![FrameView::Node(*self)],
                    old(state).deep_view(),
                    old(channel)@,
                );
                &&& final(state).deep_view() == st
                &&& final(channel)@ == ch
                &&& r == run_result(o)
            }),
            ({
                let (st, ch, o) = eval_protocol(*self, old(state).deep_view(), old(channel)@);
                &&& final(state).deep_view() == st
                &&& final(channel)@ == ch
                &&& r == run_result(o)
            }),
    {
        let mut run = self.start();
        proof {
            lemma_run_keeps_side(seq![FrameView::Node(*self)], old(state).deep_view(), old(channel)@);
            lemma_run_is_eval(*self, old(state).deep_view(), old(channel)@);
        }
        match run.run(state, channel) {
            StepOutcome::Request(r) => Ok(Some(r)),
            StepOutcome::Failed(e) => Err(e),
            StepOutcome::NeedInput => Err(NetError::UnexpectedEof),
            _ => Ok(None),
        }
    }
}

/// Law: the protocol `End` does nothing. Its run ends, with the state and the
/// channel as they were.
pub proof fn lemma_end_does_nothing<A: StateAccess>(st: <A::State as DeepView>::V, ch: ChannelView)
    ensures
        spec_run(seq![FrameView::Node(Protocol::<A>::Update(A::spec_nothing()))], st, ch) == (
            Seq::<FrameView<A>>::empty(),
            st,
            ch,
            StepOutcome::<A::Request>::Done,
        ),
{
    let frames = seq![FrameView::Node(Protocol::<A>::Update(A::spec_nothing()))];
    A::lemma_nothing(st);
    assert(frames.drop_last() =~= Seq::<FrameView<A>>::empty());
    let next = spec_step(frames, st, ch);
    assert(next == (Seq::<FrameView<A>>::empty(), st, ch, StepOutcome::<A::Request>::Progress));
    assert(spec_run(next.0, next.1, next.2) == spec_step(next.0, next.1, next.2));
}

/// Law: a step that waits for input leaves the frames and the channel as they
/// were, so that the same step is taken again, on the same bytes, once more
/// bytes arrive (the part of the state that the failed read reached may have
/// changed; the read that is taken again overwrites it).
pub proof fn lemma_waiting_changes_nothing<A: StateAccess>(
    frames: Seq<FrameView<A>>,
    st: <A::State as DeepView>::V,
    ch: ChannelView,
)
    requires
        spec_step(frames, st, ch).3 is NeedInput,
    ensures
        spec_step(frames, st, ch).0 == frames,
        spec_step(frames, st, ch).2 == ch,
{
}

/// A step below other frames `g` is the same step, with `g` kept underneath.
pub proof fn lemma_step_below<A: StateAccess>(
    g: Seq<FrameView<A>>,
    f: Seq<FrameView<A>>,
    st: <A::State as DeepView>::V,
    ch: ChannelView,
)
    requires
        f.len() > 0,
    ensures
        ({
            let (f2, s2, c2, o) = spec_step(f, st, ch);
            spec_step(g + f, st, ch) == (g + f2, s2, c2, o)
        }),
{
    let gf = g + f;
    assert(gf.last() == f.last());
    assert(gf.drop_last() =~= g + f.drop_last());
    let rest = f.drop_last();
    match f.last() {
        FrameView::Node(p) => match p {
            Protocol::Chain(v) => {
                assert((g + rest) + reversed_nodes(v@) =~= g + (rest + reversed_nodes(v@)));
            },
            Protocol::Conditional(c, a, b) => {
                assert((g + rest).push(FrameView::Node(*a)) =~= g + rest.push(FrameView::Node(*a)));
                assert((g + rest).push(FrameView::Node(*b)) =~= g + rest.push(FrameView::Node(*b)));
            },
            Protocol::Update(u) => {},
            Protocol::Exchange(s, r) => {
                let x = FrameView::Access(r, Route::ThisSide);
                let y = FrameView::Access(s, Route::OtherSide);
                assert((g + rest).push(x).push(y) =~= g + rest.push(x).push(y));
            },
            Protocol::Transfer(d, a) => {
                let x = FrameView::Access(a, destination_route(d));
                assert((g + rest).push(x) =~= g + rest.push(x));
            },
        },
        FrameView::Access(a, route) => {},
    }
}

/// Law: running frames `f` on top of other frames `g` runs `f` first. Where
/// the run of `f` ends with nothing left to do, the run goes on with `g` from
/// the state and channel that `f` left; otherwise it stops where the run of
/// `f` stops, with `g` still underneath.
pub proof fn lemma_run_below<A: StateAccess>(
    g: Seq<FrameView<A>>,
    f: Seq<FrameView<A>>,
    st: <A::State as DeepView>::V,
    ch: ChannelView,
)
    ensures
        ({
            let (f2, s2, c2, o) = spec_run(f, st, ch);
            &&& o is Done ==> f2.len() == 0 && spec_run(g + f, st, ch) == spec_run(g, s2, c2)
            &&& !(o is Done) ==> spec_run(g + f, st, ch) == (g + f2, s2, c2, o)
        }),
    decreases frames_size(f),
{
    if f.len() == 0 {
        assert(g + f =~= g);
    } else {
        lemma_step_below(g, f, st, ch);
        lemma_step_decreases(f, st, ch);
        let (f1, s1, c1, o1) = spec_step(f, st, ch);
        if o1 is Progress {
            lemma_run_below(g, f1, s1, c1);
        }
    }
}

/// Law: a chain runs its parts first to last. Its run is the run of its first
/// part and, where that part is done, the run of the other parts from the
/// state and channel that the first part left; where the first part stops
/// (fails, waits or asks), the chain stops there, its other parts not run.
pub proof fn lemma_chain_runs_in_order<A: StateAccess>(
    v: Vec<Protocol<A>>,
    st: <A::State as DeepView>::V,
    ch: ChannelView,
)
    requires
        v@.len() > 0,
    ensures
        ({
            let later = reversed_nodes(v@.skip(1));
            let (f1, s1, c1, o1) = spec_run(seq![FrameView::Node(v@[0])], st, ch);
            let whole = spec_run(seq![FrameView::Node(Protocol::Chain(v))], st, ch);
            &&& o1 is Done ==> whole == spec_run(later, s1, c1)
            &&& !(o1 is Done) ==> whole == (later + f1, s1, c1, o1)
        }),
{
    let p = Protocol::Chain(v);
    let f0 = seq![FrameView::Node(p)];
    let later = reversed_nodes(v@.skip(1));
    let first = seq![FrameView::Node(v@[0])];
    assert(f0.drop_last() + reversed_nodes(v@) =~= later + first);
    assert(spec_run(f0, st, ch) == spec_run(later + first, st, ch));
    lemma_run_below(later, first, st, ch);
}

/// Law: `End` before or after another protocol `q` in a chain changes
/// nothing: the chain leaves the state, the channel and the outcome that `q`
/// alone leaves.
pub proof fn lemma_end_in_chain<A: StateAccess>(
    q: Protocol<A>,
    before: Vec<Protocol<A>>,
    after: Vec<Protocol<A>>,
    st: <A::State as DeepView>::V,
    ch: ChannelView,
)
    requires
        before@ == seq![Protocol::<A>::Update(A::spec_nothing()), q],
        after@ == seq![q, Protocol::<A>::Update(A::spec_nothing())],
    ensures
        ({
            let alone = spec_run(seq![FrameView::Node(q)], st, ch);
            let b = spec_run(seq![FrameView::Node(Protocol::Chain(before))], st, ch);
            let a = spec_run(seq![FrameView::Node(Protocol::Chain(after))], st, ch);
            &&& (b.1, b.2, b.3) == (alone.1, alone.2, alone.3)
            &&& (a.1, a.2, a.3) == (alone.1, alone.2, alone.3)
        }),
{
    let end = Protocol::<A>::Update(A::spec_nothing());
    let qn = seq![FrameView::Node(q)];
    let en = seq![FrameView::Node(end)];
    lemma_end_does_nothing::<A>(st, ch);
    lemma_chain_runs_in_order(before, st, ch);
    assert(before@.skip(1) =~= seq![q]);
    assert(reversed_nodes(before@.skip(1)) =~= qn);
    lemma_chain_runs_in_order(after, st, ch);
    assert(after@.skip(1) =~= seq![end]);
    assert(reversed_nodes(after@.skip(1)) =~= en);
    let (f1, s1, c1, o1) = spec_run(qn, st, ch);
    if o1 is Done {
        lemma_end_does_nothing::<A>(s1, c1);
        lemma_run_below(Seq::<FrameView<A>>::empty(), qn, st, ch);
        assert(Seq::<FrameView<A>>::empty() + qn =~= qn);
    }
}

/// Law: a conditional runs the protocol that its condition chooses on the
/// state as it stands when the conditional is reached.
pub proof fn lemma_conditional_chooses<A: StateAccess>(
    c: A::Condition,
    when: Box<Protocol<A>>,
    otherwise: Box<Protocol<A>>,
    st: <A::State as DeepView>::V,
    ch: ChannelView,
)
    ensures
        spec_run(
            seq![FrameView::Node(Protocol::Conditional(c, when, otherwise))],
            st,
            ch,
        ) == spec_run(
            seq![
                FrameView::Node(
                    if A::spec_holds(c, st) {
                        *when
                    } else {
                        *otherwise
                    },
                ),
            ],
            st,
            ch,
        ),
{
    let f0 = seq![FrameView::Node(Protocol::Conditional(c, when, otherwise))];
    let chosen = if A::spec_holds(c, st) {
        *when
    } else {
        *otherwise
    };
    assert(f0.drop_last().push(FrameView::Node(chosen)) =~= seq![FrameView::Node(chosen)]);
}

/// What moving a part `a` of the state over the direction that `route` names
/// gives, read as a whole: the state and channel after it, and `Done` where it
/// succeeded, `NeedInput` where a read ran out of bytes (the channel as it
/// was), or the failure.
pub open spec fn eval_access<A: StateAccess>(
    a: A,
    route: Route,
    st: <A::State as DeepView>::V,
    ch: ChannelView,
) -> (<A::State as DeepView>::V, ChannelView, StepOutcome<A::Request>) {
    let (st2, d2, res) = a.spec_access(st, route_dir(ch, route));
    match res {
        Ok(()) => (st2, with_route(ch, route, d2), StepOutcome::Done),
        Err(NetError::UnexpectedEof) => if route_dir(ch, route) is Reading {
            (st2, ch, StepOutcome::NeedInput)
        } else {
            (st2, with_route(ch, route, d2), StepOutcome::Failed(NetError::UnexpectedEof))
        },
        Err(e) => (st2, with_route(ch, route, d2), StepOutcome::Failed(e)),
    }
}

/// A protocol read recursively: a chain runs its parts in order and stops at
/// the first that does not finish; a conditional runs the part that its
/// condition chooses on the state as it stands; an update is applied once; an
/// exchange sends its first part towards the other side and then receives its
/// second part from it; a transfer moves its part in its direction. The state
/// and channel after it, and `Done` where all of it finished, else where and
/// why it stopped.
pub open spec fn eval_protocol<A: StateAccess>(
    p: Protocol<A>,
    st: <A::State as DeepView>::V,
    ch: ChannelView,
) -> (<A::State as DeepView>::V, ChannelView, StepOutcome<A::Request>)
    decreases p,
{
    match p {
        Protocol::Chain(v) => eval_protocols(v@, st, ch),
        Protocol::Conditional(c, a, b) => if A::spec_holds(c, st) {
            eval_protocol(*a, st, ch)
        } else {
            eval_protocol(*b, st, ch)
        },
        Protocol::Update(u) => {
            let (st2, out) = A::spec_update(u, st);
            match out {
                UpdateOutcome::Finished(Ok(())) => (st2, ch, StepOutcome::Done),
                UpdateOutcome::Finished(Err(e)) => (st2, ch, StepOutcome::Failed(e)),
                UpdateOutcome::Request(r) => (st2, ch, StepOutcome::Request(r)),
            }
        },
        Protocol::Exchange(sending, receiving) => {
            let (st1, ch1, o1) = eval_access(sending, Route::OtherSide, st, ch);
            if o1 is Done {
                eval_access(receiving, Route::ThisSide, st1, ch1)
            } else {
                (st1, ch1, o1)
            }
        },
        Protocol::Transfer(d, a) => eval_access(a, destination_route(d), st, ch),
    }
}

/// The protocols `ps` read recursively, one after the other, stopping at the
/// first that does not finish.
pub open spec fn eval_protocols<A: StateAccess>(
    ps: Seq<Protocol<A>>,
    st: <A::State as DeepView>::V,
    ch: ChannelView,
) -> (<A::State as DeepView>::V, ChannelView, StepOutcome<A::Request>)
    decreases ps,
{
    if ps.len() == 0 {
        (st, ch, StepOutcome::Done)
    } else {
        let (st1, ch1, o1) = eval_protocol(ps[0], st, ch);
        if o1 is Done {
            eval_protocols(ps.subrange(1, ps.len() as int), st1, ch1)
        } else {
            (st1, ch1, o1)
        }
    }
}

/// A single access runs as `eval_access` reads it.
proof fn lemma_access_runs<A: StateAccess>(
    a: A,
    route: Route,
    st: <A::State as DeepView>::V,
    ch: ChannelView,
)
    ensures
        ({
            let (f, s, c, o) = spec_run(seq![FrameView::Access(a, route)], st, ch);
            &&& (s, c, o) == eval_access(a, route, st, ch)
            &&& o is Done ==> f.len() == 0
        }),
{
    let frames = seq![FrameView::<A>::Access(a, route)];
    assert(frames.drop_last() =~= Seq::<FrameView<A>>::empty());
    let (f1, s1, c1, o1) = spec_step(frames, st, ch);
    if o1 is Progress {
        assert(spec_run(f1, s1, c1) == spec_step(f1, s1, c1));
    }
}

/// Law: a run of a protocol is its recursive reading. The run of `p` leaves
/// the state, the channel and the outcome that `eval_protocol` gives, and
/// where it finishes, nothing is left to do.
pub proof fn lemma_run_is_eval<A: StateAccess>(
    p: Protocol<A>,
    st: <A::State as DeepView>::V,
    ch: ChannelView,
)
    ensures
        ({
            let (f, s, c, o) = spec_run(seq![FrameView::Node(p)], st, ch);
            &&& (s, c, o) == eval_protocol(p, st, ch)
            &&& o is Done ==> f.len() == 0
        }),
    decreases p,
{
    let frames = seq![FrameView::Node(p)];
    let empty = Seq::<FrameView<A>>::empty();
    assert(frames.drop_last() =~= empty);
    match p {
        Protocol::Chain(v) => {
            assert(empty + reversed_nodes(v@) =~= reversed_nodes(v@));
            lemma_run_steps(frames, st, ch, reversed_nodes(v@), st, ch);
            lemma_runs_are_eval(v@, st, ch);
        },
        Protocol::Conditional(c, a, b) => {
            lemma_conditional_chooses(c, a, b, st, ch);
            if A::spec_holds(c, st) {
                lemma_run_is_eval(*a, st, ch);
            } else {
                lemma_run_is_eval(*b, st, ch);
            }
        },
        Protocol::Update(u) => {
            let (f1, s1, c1, o1) = spec_step(frames, st, ch);
            if o1 is Progress {
                assert(spec_run(f1, s1, c1) == spec_step(f1, s1, c1));
            }
        },
        Protocol::Exchange(sending, receiving) => {
            let x = FrameView::Access(receiving, Route::ThisSide);
            let y = FrameView::Access(sending, Route::OtherSide);
            assert(empty.push(x).push(y) =~= seq![x] + seq![y]);
            lemma_run_steps(frames, st, ch, seq![x] + seq![y], st, ch);
            lemma_run_below(seq![x], seq![y], st, ch);
            lemma_access_runs(sending, Route::OtherSide, st, ch);
            let (f1, s1, c1, o1) = spec_run(seq![y], st, ch);
            if o1 is Done {
                lemma_access_runs(receiving, Route::ThisSide, s1, c1);
            }
        },
        Protocol::Transfer(d, a) => {
            let x = FrameView::Access(a, destination_route(d));
            assert(empty.push(x) =~= seq![x]);
            lemma_run_steps(frames, st, ch, seq![x], st, ch);
            lemma_access_runs(a, destination_route(d), st, ch);
        },
    }
}

/// The protocols `ps`, put on the frames first to last on top, run as
/// `eval_protocols` reads them.
pub proof fn lemma_runs_are_eval<A: StateAccess>(
    ps: Seq<Protocol<A>>,
    st: <A::State as DeepView>::V,
    ch: ChannelView,
)
    ensures
        ({
            let (f, s, c, o) = spec_run(reversed_nodes(ps), st, ch);
            &&& (s, c, o) == eval_protocols(ps, st, ch)
            &&& o is Done ==> f.len() == 0
        }),
    decreases ps,
{
    if ps.len() == 0 {
        assert(reversed_nodes(ps) =~= Seq::<FrameView<A>>::empty());
    } else {
        let later = ps.subrange(1, ps.len() as int);
        let first = seq![FrameView::Node(ps[0])];
        assert(reversed_nodes(ps) =~= reversed_nodes(later) + first);
        lemma_run_below(reversed_nodes(later), first, st, ch);
        lemma_run_is_eval(ps[0], st, ch);
        let (f1, s1, c1, o1) = spec_run(first, st, ch);
        if o1 is Done {
            lemma_runs_are_eval(later, s1, c1);
        }
    }
}

/// Law: read recursively, `End` does nothing, and `End` before or after
/// another protocol `q` in a chain leaves the state, the channel and the
/// outcome that `q` alone leaves.
pub proof fn lemma_end_is_neutral<A: StateAccess>(
    q: Protocol<A>,
    st: <A::State as DeepView>::V,
    ch: ChannelView,
)
    ensures
        eval_protocol(Protocol::<A>::Update(A::spec_nothing()), st, ch) == (
            st,
            ch,
            StepOutcome::<A::Request>::Done,
        ),
        eval_protocols(seq![Protocol::<A>::Update(A::spec_nothing()), q], st, ch)
            == eval_protocol(q, st, ch),
        eval_protocols(seq![q, Protocol::<A>::Update(A::spec_nothing())], st, ch)
            == eval_protocol(q, st, ch),
{
    let end = Protocol::<A>::Update(A::spec_nothing());
    let empty = Seq::<Protocol<A>>::empty();
    A::lemma_nothing(st);
    assert(seq![end, q].subrange(1, 2) =~= seq![q]);
    assert(seq![q].subrange(1, 1) =~= empty);
    assert(seq![q, end].subrange(1, 2) =~= seq![end]);
    assert(seq![end].subrange(1, 1) =~= empty);
    let (s1, c1, o1) = eval_protocol(q, st, ch);
    A::lemma_nothing(s1);
    assert(eval_protocols(empty, s1, c1) == (s1, c1, StepOutcome::<A::Request>::Done));
    assert(seq![q][0] == q);
    assert(seq![end][0] == end);
    assert(eval_protocol(end, s1, c1) == (s1, c1, StepOutcome::<A::Request>::Done));
    assert(eval_protocols(seq![q], st, ch) == eval_protocol(q, st, ch));
    assert(eval_protocols(seq![end], s1, c1) == (s1, c1, StepOutcome::<A::Request>::Done));
}

/// Law: a transfer moves its part over the direction that it names, on
/// either side of a connection: towards the server over `to_server`, towards
/// the client over `to_client`; the other direction stays as it was.
pub proof fn lemma_transfer_direction<A: StateAccess>(
    d: Destination,
    a: A,
    st: <A::State as DeepView>::V,
    ch: ChannelView,
)
    ensures
        ({
            let dir = match d {
                Destination::ToServer => ch.to_server,
                Destination::ToClient => ch.to_client,
            };
            let (st2, d2, res) = a.spec_access(st, dir);
            let moved = match d {
                Destination::ToServer => ChannelView { to_server: d2, ..ch },
                Destination::ToClient => ChannelView { to_client: d2, ..ch },
            };
            let e = eval_protocol(Protocol::<A>::Transfer(d, a), st, ch);
            &&& e.0 == st2
            &&& match res {
                Ok(()) => e.1 == moved && e.2 is Done,
                Err(err) => if err == NetError::UnexpectedEof && dir is Reading {
                    e.1 == ch && e.2 is NeedInput
                } else {
                    e.1 == moved && e.2 == StepOutcome::<A::Request>::Failed(err)
                },
            }
        }),
{
}

/// Law: an exchange first sends its first part towards the other side (from
/// the server over `to_client`, from the client over `to_server`); where that
/// fails, it stops there. Otherwise it then receives its second part from the
/// other side over the other direction, from the state that the sending left.
pub proof fn lemma_exchange_directions<A: StateAccess>(
    sending: A,
    receiving: A,
    st: <A::State as DeepView>::V,
    ch: ChannelView,
)
    ensures
        ({
            let out = if ch.is_server {
                ch.to_client
            } else {
                ch.to_server
            };
            let inp = if ch.is_server {
                ch.to_server
            } else {
                ch.to_client
            };
            let (st1, d1, r1) = sending.spec_access(st, out);
            let ch1 = if ch.is_server {
                ChannelView { to_client: d1, ..ch }
            } else {
                ChannelView { to_server: d1, ..ch }
            };
            let (st2, d2, r2) = receiving.spec_access(st1, inp);
            let ch2 = if ch.is_server {
                ChannelView { to_server: d2, ..ch1 }
            } else {
                ChannelView { to_client: d2, ..ch1 }
            };
            let e = eval_protocol(Protocol::<A>::Exchange(sending, receiving), st, ch);
            &&& r1 is Err ==> e.0 == st1 && !(e.2 is Done)
            &&& r1 is Ok ==> e.0 == st2
            &&& r1 is Ok && r2 is Ok ==> e == (st2, ch2, StepOutcome::<A::Request>::Done)
        }),
{
}

/// Law: read recursively, protocols one after the other run the first ones
/// and then, only where these all finished, the later ones, from the state
/// and channel that the first ones left; a chain is its parts one after the
/// other, and a single protocol is itself.
pub proof fn lemma_protocols_in_order<A: StateAccess>(
    ps: Seq<Protocol<A>>,
    qs: Seq<Protocol<A>>,
    st: <A::State as DeepView>::V,
    ch: ChannelView,
)
    ensures
        ({
            let (s1, c1, o1) = eval_protocols(ps, st, ch);
            eval_protocols(ps + qs, st, ch) == if o1 is Done {
                eval_protocols(qs, s1, c1)
            } else {
                (s1, c1, o1)
            }
        }),
        eval_protocols(Seq::<Protocol<A>>::empty(), st, ch) == (
            st,
            ch,
            StepOutcome::<A::Request>::Done,
        ),
        ps.len() == 1 ==> eval_protocols(ps, st, ch) == eval_protocol(ps[0], st, ch),
    decreases ps.len(),
{
    if ps.len() > 0 {
        let later = ps.subrange(1, ps.len() as int);
        assert((ps + qs).subrange(1, (ps + qs).len() as int) =~= later + qs);
        assert((ps + qs)[0] == ps[0]);
        let (s0, c0, o0) = eval_protocol(ps[0], st, ch);
        if o0 is Done {
            lemma_protocols_in_order(later, qs, s0, c0);
        }
        if ps.len() == 1 {
            assert(later =~= Seq::<Protocol<A>>::empty());
            assert(eval_protocols(later, s0, c0) == (s0, c0, StepOutcome::<A::Request>::Done));
        }
    } else {
        assert(ps + qs =~= qs);
    }
}

/// Law: read recursively, a conditional runs the protocol that its condition
/// chooses on the state as it stands, and an update is applied once, its
/// outcome deciding whether the protocol finished, failed or asks for outside
/// interaction, with the channel untouched.
pub proof fn lemma_conditional_and_update<A: StateAccess>(
    c: A::Condition,
    when: Box<Protocol<A>>,
    otherwise: Box<Protocol<A>>,
    u: A::Update,
    st: <A::State as DeepView>::V,
    ch: ChannelView,
)
    ensures
        A::spec_holds(c, st) ==> eval_protocol(Protocol::Conditional(c, when, otherwise), st, ch)
            == eval_protocol(*when, st, ch),
        !A::spec_holds(c, st) ==> eval_protocol(Protocol::Conditional(c, when, otherwise), st, ch)
            == eval_protocol(*otherwise, st, ch),
        ({
            let (st2, out) = A::spec_update(u, st);
            let e = eval_protocol(Protocol::<A>::Update(u), st, ch);
            &&& e.0 == st2
            &&& e.1 == ch
            &&& out == UpdateOutcome::<A::Request>::Finished(Ok(())) ==> e.2 is Done
            &&& out matches UpdateOutcome::Finished(Err(err)) ==> e.2 == StepOutcome::<
                A::Request,
            >::Failed(err)
            &&& out matches UpdateOutcome::Request(r) ==> e.2 == StepOutcome::Request(r)
        }),
{
}

} // verus!
