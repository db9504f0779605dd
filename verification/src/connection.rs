use crate::serialization::{ReadWrite, StreamView};
use vstd::prelude::*;

verus! {

/// The two directions of a connection, seen from the server or from the client.
pub enum ChannelPair {
    ServerPair { impl_to_server: ReadWrite, impl_to_client: ReadWrite },
    ClientPair { impl_to_server: ReadWrite, impl_to_client: ReadWrite },
}

/// What a `ChannelPair` holds: which side it belongs to and its two directions.
pub struct ChannelView {
    pub is_server: bool,
    pub to_server: StreamView,
    pub to_client: StreamView,
}

impl ChannelView {
    /// Both directions are well formed.
    pub open spec fn wf(self) -> bool {
        self.to_server.wf() && self.to_client.wf()
    }
}

impl View for ChannelPair {
    type V = ChannelView;

    open spec fn view(&self) -> ChannelView {
        match self {
            ChannelPair::ServerPair { impl_to_server, impl_to_client } => ChannelView {
                is_server: true,
                to_server: impl_to_server@,
                to_client: impl_to_client@,
            },
            ChannelPair::ClientPair { impl_to_server, impl_to_client } => ChannelView {
                is_server: false,
                to_server: impl_to_server@,
                to_client: impl_to_client@,
            },
        }
    }
}

impl ChannelPair {
    /// The direction from the client to the server.
    pub fn towards_server(&mut self) -> (r: &mut ReadWrite)
        ensures
            r@ == old(self)@.to_server,
            final(self)@ == (ChannelView { to_server: final(r)@, ..old(self)@ }),
    {
        match self {
            ChannelPair::ServerPair { impl_to_server, .. } => impl_to_server,
            ChannelPair::ClientPair { impl_to_server, .. } => impl_to_server,
        }
    }

    /// The direction from the server to the client.
    pub fn towards_client(&mut self) -> (r: &mut ReadWrite)
        ensures
            r@ == old(self)@.to_client,
            final(self)@ == (ChannelView { to_client: final(r)@, ..old(self)@ }),
    {
        match self {
            ChannelPair::ServerPair { impl_to_client, .. } => impl_to_client,
            ChannelPair::ClientPair { impl_to_client, .. } => impl_to_client,
        }
    }

    /// The direction towards the other side: to the client on the server, to
    /// the server on the client.
    pub fn towards_other_side(&mut self) -> (r: &mut ReadWrite)
        ensures
            old(self)@.is_server ==> {
                &&& r@ == old(self)@.to_client
                &&& final(self)@ == (ChannelView { to_client: final(r)@, ..old(self)@ })
            },
            !old(self)@.is_server ==> {
                &&& r@ == old(self)@.to_server
                &&& final(self)@ == (ChannelView { to_server: final(r)@, ..old(self)@ })
            },
    {
        match self {
            ChannelPair::ServerPair { impl_to_client, .. } => impl_to_client,
            ChannelPair::ClientPair { impl_to_server, .. } => impl_to_server,
        }
    }

    /// The direction towards this side: to the server on the server, to the
    /// client on the client.
    pub fn towards_this_side(&mut self) -> (r: &mut ReadWrite)
        ensures
            old(self)@.is_server ==> {
                &&& r@ == old(self)@.to_server
                &&& final(self)@ == (ChannelView { to_server: final(r)@, ..old(self)@ })
            },
            !old(self)@.is_server ==> {
                &&& r@ == old(self)@.to_client
                &&& final(self)@ == (ChannelView { to_client: final(r)@, ..old(self)@ })
            },
    {
        match self {
            ChannelPair::ServerPair { impl_to_server, .. } => impl_to_server,
            ChannelPair::ClientPair { impl_to_client, .. } => impl_to_client,
        }
    }
}

} // verus!
