//! Conversions between errors.

use vstd::prelude::*;
use vstd::std_specs::convert::FromSpecImpl;

use crate::channel::ChannelError;
use crate::engine::EngineError;
use crate::runtime::NetError;
use crate::session::SessionError;
use crate::strategy::rs::code::RsError;
use crate::strategy::rs::decode::DecodeError;
use crate::strategy::rs::encode::EncodeError;
use crate::strategy::rs::verify::PreambleError;
use crate::strategy::TakeError;

verus! {

impl From<TakeError> for SessionError {
    fn from(e: TakeError) -> (r: SessionError) {
        SessionError::Take(e)
    }
}

impl FromSpecImpl<TakeError> for SessionError {
    open spec fn obeys_from_spec() -> bool {
        true
    }

    open spec fn from_spec(e: TakeError) -> SessionError {
        SessionError::Take(e)
    }
}

impl From<SessionError> for ChannelError {
    fn from(e: SessionError) -> (r: ChannelError) {
        ChannelError::Session(e)
    }
}

impl FromSpecImpl<SessionError> for ChannelError {
    open spec fn obeys_from_spec() -> bool {
        true
    }

    open spec fn from_spec(e: SessionError) -> ChannelError {
        ChannelError::Session(e)
    }
}

impl From<NetError> for EngineError {
    fn from(e: NetError) -> (r: EngineError) {
        EngineError::Net(e)
    }
}

impl FromSpecImpl<NetError> for EngineError {
    open spec fn obeys_from_spec() -> bool {
        true
    }

    open spec fn from_spec(e: NetError) -> EngineError {
        EngineError::Net(e)
    }
}

impl From<ChannelError> for EngineError {
    fn from(e: ChannelError) -> (r: EngineError) {
        EngineError::Channel(e)
    }
}

impl FromSpecImpl<ChannelError> for EngineError {
    open spec fn obeys_from_spec() -> bool {
        true
    }

    open spec fn from_spec(e: ChannelError) -> EngineError {
        EngineError::Channel(e)
    }
}

impl From<RsError> for EncodeError {
    fn from(e: RsError) -> (r: EncodeError) {
        EncodeError::Rs(e)
    }
}

impl FromSpecImpl<RsError> for EncodeError {
    open spec fn obeys_from_spec() -> bool {
        true
    }

    open spec fn from_spec(e: RsError) -> EncodeError {
        EncodeError::Rs(e)
    }
}

impl From<PreambleError> for DecodeError {
    fn from(e: PreambleError) -> (r: DecodeError) {
        DecodeError::Preamble(e)
    }
}

impl FromSpecImpl<PreambleError> for DecodeError {
    open spec fn obeys_from_spec() -> bool {
        true
    }

    open spec fn from_spec(e: PreambleError) -> DecodeError {
        DecodeError::Preamble(e)
    }
}

impl From<RsError> for DecodeError {
    fn from(e: RsError) -> (r: DecodeError) {
        DecodeError::Rs(e)
    }
}

impl FromSpecImpl<RsError> for DecodeError {
    open spec fn obeys_from_spec() -> bool {
        true
    }

    open spec fn from_spec(e: RsError) -> DecodeError {
        DecodeError::Rs(e)
    }
}

} // verus!
