//! Control frames of BCAST streams.

use vstd::prelude::*;

use crate::order;
use crate::pb::wire;
use crate::pb::wire::{Message as _, Raw, RawView};
use crate::pb::WireError;

verus! {

/// Greets a peer: protocol version, subscribed channels, and name.
#[derive(Debug, Clone, PartialEq, Eq)]
pub struct Handshake {
    pub version: u32,
    pub channels: Vec<String>,
    pub peer_id: String,
}

/// Contents of a [`Handshake`].
#[verifier::ext_equal]
pub ghost struct HandshakeView {
    pub version: u32,
    pub channels: Seq<Seq<char>>,
    pub peer_id: Seq<char>,
}

impl View for Handshake {
    type V = HandshakeView;

    open spec fn view(&self) -> HandshakeView {
        HandshakeView {
            version: self.version,
            channels: order::spelled(self.channels@),
            peer_id: self.peer_id@,
        }
    }
}

impl wire::Message for Handshake {
    open spec fn blank() -> HandshakeView {
        HandshakeView { version: 0, channels: Seq::empty(), peer_id: Seq::empty() }
    }

    open spec fn applied(v: HandshakeView, tag: u32, raw: RawView) -> Result<HandshakeView, WireError> {
        if tag == 1 {
            match wire::uint32_of(raw) {
                Ok(version) => Ok(HandshakeView { version, ..v }),
                Err(e) => Err(e),
            }
        } else if tag == 2 {
            match wire::text_of(raw) {
                Ok(channel) => Ok(HandshakeView { channels: v.channels.push(channel), ..v }),
                Err(e) => Err(e),
            }
        } else if tag == 3 {
            match wire::text_of(raw) {
                Ok(peer_id) => Ok(HandshakeView { peer_id, ..v }),
                Err(e) => Err(e),
            }
        } else {
            Ok(v)
        }
    }

    open spec fn encoding(v: HandshakeView) -> Seq<u8> {
        wire::with_uint32(
            1,
            v.version,
            wire::with_blobs(
                2,
                wire::utf8_list(v.channels),
                wire::with_text(3, v.peer_id, Seq::empty()),
            ),
        )
    }

    fn new_blank() -> (r: Self) {
        let r = Handshake { version: 0, channels: Vec::new(), peer_id: String::new() };
        assert(r@ =~= Self::blank());
        r
    }

    fn merge_field(&mut self, tag: u32, raw: Raw) -> (r: Result<(), WireError>) {
        if tag == 1 {
            match wire::take_uint32(raw) {
                Ok(v) => {
                    self.version = v;
                    Ok(())
                },
                Err(e) => Err(e),
            }
        } else if tag == 2 {
            match wire::take_text(raw) {
                Ok(v) => {
                    let ghost before = order::spelled(self.channels@);
                    self.channels.push(v);
                    assert(order::spelled(self.channels@) =~= before.push(v@));
                    Ok(())
                },
                Err(e) => Err(e),
            }
        } else if tag == 3 {
            match wire::take_text(raw) {
                Ok(v) => {
                    self.peer_id = v;
                    Ok(())
                },
                Err(e) => Err(e),
            }
        } else {
            Ok(())
        }
    }

    fn encode(&self, out: &mut Vec<u8>) {
        let ghost t3 = wire::with_text(3, self@.peer_id, Seq::empty());
        let ghost t2 = wire::with_blobs(2, wire::utf8_list(self@.channels), t3);
        wire::put_uint32(1, self.version, out);
        assert(out@ + t2 == old(out)@ + Self::encoding(self@));
        wire::put_texts(2, &self.channels, out);
        assert(out@ + t3 == old(out)@ + Self::encoding(self@));
        wire::put_text(3, &self.peer_id, out);
        assert(out@ + Seq::<u8>::empty() =~= out@);
    }
}

impl HandshakeView {
    /// The lengths of the fields fit in an integer of the wire format.
    pub open spec fn fits(self) -> bool {
        &&& forall|i: int|
            0 <= i < self.channels.len() ==> vstd::utf8::encode_utf8(#[trigger] self.channels[i]).len()
                <= u64::MAX
        &&& vstd::utf8::encode_utf8(self.peer_id).len() <= u64::MAX
    }
}

proof fn lemma_channels_merge(m: HandshakeView, channels: Seq<Seq<char>>, tail: Seq<u8>)
    requires
        forall|i: int|
            0 <= i < channels.len() ==> vstd::utf8::encode_utf8(#[trigger] channels[i]).len() <= u64::MAX,
    ensures
        wire::merged_at::<Handshake>(m, wire::with_blobs(2, wire::utf8_list(channels), tail), true)
            == wire::merged_at::<Handshake>(HandshakeView { channels: m.channels + channels, ..m }, tail, true),
    decreases channels.len(),
{
    if channels.len() == 0 {
        assert(m.channels + channels =~= m.channels);
    } else {
        let rest = channels.drop_first();
        assert(wire::utf8_list(channels).drop_first() =~= wire::utf8_list(rest));
        let b = vstd::utf8::encode_utf8(channels[0]);
        assert(b.len() <= u64::MAX);
        wire::lemma_merge_bytes::<Handshake>(
            true,
            m,
            2,
            b,
            wire::with_blobs(2, wire::utf8_list(rest), tail),
        );
        wire::law_text_round_trip(channels[0]);
        let m1 = HandshakeView { channels: m.channels.push(channels[0]), ..m };
        assert forall|i: int| 0 <= i < rest.len() implies vstd::utf8::encode_utf8(
            #[trigger] rest[i],
        ).len() <= u64::MAX by {
            assert(rest[i] == channels[i + 1]);
        }
        lemma_channels_merge(m1, rest, tail);
        assert(m1.channels + rest =~= m.channels + channels);
    }
}

proof fn lemma_handshake_round_trip(v: HandshakeView)
    requires
        v.fits(),
    ensures
        wire::merged_at::<Handshake>(Handshake::blank(), Handshake::encoding(v), true) == Ok::<
            HandshakeView,
            WireError,
        >(v),
{
    let t3 = wire::with_text(3, v.peer_id, Seq::empty());
    let t2 = wire::with_blobs(2, wire::utf8_list(v.channels), t3);
    let m0 = Handshake::blank();
    let m1 = HandshakeView { version: v.version, ..m0 };
    wire::law_integers_round_trip(0, v.version);
    wire::lemma_merge_varint::<Handshake>(true, m0, 1, v.version as u64, t2);
    assert(wire::merged_at::<Handshake>(m0, Handshake::encoding(v), true) == wire::merged_at::<Handshake>(m1, t2, true));
    lemma_channels_merge(m1, v.channels, t3);
    let m2 = HandshakeView { channels: m1.channels + v.channels, ..m1 };
    assert(m2.channels =~= v.channels);
    wire::lemma_merge_text::<Handshake>(true, m2, 3, v.peer_id, Seq::empty());
    assert(HandshakeView { peer_id: v.peer_id, ..m2 } =~= v);
}

/// Announces a subscription.
#[derive(Debug, Clone, PartialEq, Eq)]
pub struct Subscribe {
    pub channel: String,
}

/// Contents of a [`Subscribe`].
#[verifier::ext_equal]
pub ghost struct SubscribeView {
    pub channel: Seq<char>,
}

impl View for Subscribe {
    type V = SubscribeView;

    open spec fn view(&self) -> SubscribeView {
        SubscribeView { channel: self.channel@ }
    }
}

impl wire::Message for Subscribe {
    open spec fn blank() -> SubscribeView {
        SubscribeView { channel: Seq::empty() }
    }

    open spec fn applied(v: SubscribeView, tag: u32, raw: RawView) -> Result<SubscribeView, WireError> {
        if tag == 1 {
            match wire::text_of(raw) {
                Ok(channel) => Ok(SubscribeView { channel }),
                Err(e) => Err(e),
            }
        } else {
            Ok(v)
        }
    }

    open spec fn encoding(v: SubscribeView) -> Seq<u8> {
        wire::with_text(1, v.channel, Seq::empty())
    }

    fn new_blank() -> (r: Self) {
        let r = Subscribe { channel: String::new() };
        assert(r@ =~= Self::blank());
        r
    }

    fn merge_field(&mut self, tag: u32, raw: Raw) -> (r: Result<(), WireError>) {
        if tag == 1 {
            match wire::take_text(raw) {
                Ok(v) => {
                    self.channel = v;
                    Ok(())
                },
                Err(e) => Err(e),
            }
        } else {
            Ok(())
        }
    }

    fn encode(&self, out: &mut Vec<u8>) {
        wire::put_text(1, &self.channel, out);
        assert(out@ + Seq::<u8>::empty() =~= out@);
    }
}

proof fn lemma_subscribe_round_trip(v: SubscribeView)
    requires
        v.fits(),
    ensures
        wire::merged_at::<Subscribe>(Subscribe::blank(), Subscribe::encoding(v), true) == Ok::<SubscribeView, WireError>(v),
{
    let m0 = Subscribe::blank();
    let m1 = SubscribeView { channel: v.channel };
    wire::lemma_merge_text::<Subscribe>(true, m0, 1, v.channel, Seq::empty());
    assert(wire::merged_at::<Subscribe>(m0, Subscribe::encoding(v), true) == wire::merged_at::<Subscribe>(m1, Seq::empty(), true));
    assert(m1 =~= v);
}

impl SubscribeView {
    /// The lengths of the fields fit in an integer of the wire format.
    pub open spec fn fits(self) -> bool {
        &&& vstd::utf8::encode_utf8(self.channel).len() <= u64::MAX
    }
}

/// Withdraws a subscription.
#[derive(Debug, Clone, PartialEq, Eq)]
pub struct Unsubscribe {
    pub channel: String,
}

/// Contents of an [`Unsubscribe`].
#[verifier::ext_equal]
pub ghost struct UnsubscribeView {
    pub channel: Seq<char>,
}

impl View for Unsubscribe {
    type V = UnsubscribeView;

    open spec fn view(&self) -> UnsubscribeView {
        UnsubscribeView { channel: self.channel@ }
    }
}

impl wire::Message for Unsubscribe {
    open spec fn blank() -> UnsubscribeView {
        UnsubscribeView { channel: Seq::empty() }
    }

    open spec fn applied(v: UnsubscribeView, tag: u32, raw: RawView) -> Result<UnsubscribeView, WireError> {
        if tag == 1 {
            match wire::text_of(raw) {
                Ok(channel) => Ok(UnsubscribeView { channel }),
                Err(e) => Err(e),
            }
        } else {
            Ok(v)
        }
    }

    open spec fn encoding(v: UnsubscribeView) -> Seq<u8> {
        wire::with_text(1, v.channel, Seq::empty())
    }

    fn new_blank() -> (r: Self) {
        let r = Unsubscribe { channel: String::new() };
        assert(r@ =~= Self::blank());
        r
    }

    fn merge_field(&mut self, tag: u32, raw: Raw) -> (r: Result<(), WireError>) {
        if tag == 1 {
            match wire::take_text(raw) {
                Ok(v) => {
                    self.channel = v;
                    Ok(())
                },
                Err(e) => Err(e),
            }
        } else {
            Ok(())
        }
    }

    fn encode(&self, out: &mut Vec<u8>) {
        wire::put_text(1, &self.channel, out);
        assert(out@ + Seq::<u8>::empty() =~= out@);
    }
}

proof fn lemma_unsubscribe_round_trip(v: UnsubscribeView)
    requires
        v.fits(),
    ensures
        wire::merged_at::<Unsubscribe>(Unsubscribe::blank(), Unsubscribe::encoding(v), true) == Ok::<UnsubscribeView, WireError>(v),
{
    let m0 = Unsubscribe::blank();
    let m1 = UnsubscribeView { channel: v.channel };
    wire::lemma_merge_text::<Unsubscribe>(true, m0, 1, v.channel, Seq::empty());
    assert(wire::merged_at::<Unsubscribe>(m0, Unsubscribe::encoding(v), true) == wire::merged_at::<Unsubscribe>(m1, Seq::empty(), true));
    assert(m1 =~= v);
}

impl UnsubscribeView {
    /// The lengths of the fields fit in an integer of the wire format.
    pub open spec fn fits(self) -> bool {
        &&& vstd::utf8::encode_utf8(self.channel).len() <= u64::MAX
    }
}

/// What a BCAST frame carries.
#[derive(Debug, Clone, PartialEq, Eq)]
pub enum Message {
    /// First frame on the stream.
    PeerHandshake(Handshake),
    /// The peer subscribed to a channel.
    ChannelSubscribe(Subscribe),
    /// The peer left a channel.
    ChannelUnsubscribe(Unsubscribe),
}

/// Contents of a [`Message`].
#[verifier::ext_equal]
pub ghost enum MessageView {
    PeerHandshake(HandshakeView),
    ChannelSubscribe(SubscribeView),
    ChannelUnsubscribe(UnsubscribeView),
}

impl View for Message {
    type V = MessageView;

    open spec fn view(&self) -> MessageView {
        match self {
            Message::PeerHandshake(m) => MessageView::PeerHandshake(m@),
            Message::ChannelSubscribe(m) => MessageView::ChannelSubscribe(m@),
            Message::ChannelUnsubscribe(m) => MessageView::ChannelUnsubscribe(m@),
        }
    }
}

/// A frame of a BCAST stream.
#[derive(Debug, Clone, PartialEq, Eq)]
pub struct Bcast {
    pub message: Option<Message>,
}

/// Contents of a [`Bcast`].
#[verifier::ext_equal]
pub ghost struct BcastView {
    pub message: Option<MessageView>,
}

impl View for Bcast {
    type V = BcastView;

    open spec fn view(&self) -> BcastView {
        BcastView {
            message: match self.message {
                Some(m) => Some(m@),
                None => None,
            },
        }
    }
}

impl Bcast {
    /// The frame that `bytes` encode.
    pub fn decode(bytes: &[u8]) -> (r: Result<Bcast, WireError>)
        ensures
            match r {
                Ok(m) => wire::merged::<Bcast>(Bcast::blank(), bytes@) == Ok::<BcastView, WireError>(m@),
                Err(e) => wire::merged::<Bcast>(Bcast::blank(), bytes@) == Err::<BcastView, WireError>(e),
            },
    {
        wire::decode_message(bytes)
    }
}

impl wire::Message for Bcast {
    open spec fn blank() -> BcastView {
        BcastView { message: None }
    }

    open spec fn applied(v: BcastView, tag: u32, raw: RawView) -> Result<BcastView, WireError> {
        if tag == 1 {
            let before = match v.message {
                Some(MessageView::PeerHandshake(m)) => m,
                _ => Handshake::blank(),
            };
            match wire::nested_of::<Handshake>(before, raw) {
                Ok(m) => Ok(BcastView { message: Some(MessageView::PeerHandshake(m)) }),
                Err(e) => Err(e),
            }
        } else if tag == 2 {
            let before = match v.message {
                Some(MessageView::ChannelSubscribe(m)) => m,
                _ => Subscribe::blank(),
            };
            match wire::nested_of::<Subscribe>(before, raw) {
                Ok(m) => Ok(BcastView { message: Some(MessageView::ChannelSubscribe(m)) }),
                Err(e) => Err(e),
            }
        } else if tag == 3 {
            let before = match v.message {
                Some(MessageView::ChannelUnsubscribe(m)) => m,
                _ => Unsubscribe::blank(),
            };
            match wire::nested_of::<Unsubscribe>(before, raw) {
                Ok(m) => Ok(BcastView { message: Some(MessageView::ChannelUnsubscribe(m)) }),
                Err(e) => Err(e),
            }
        } else {
            Ok(v)
        }
    }

    open spec fn encoding(v: BcastView) -> Seq<u8> {
        match v.message {
            Some(MessageView::PeerHandshake(m)) => wire::with_message::<Handshake>(1, m, Seq::empty()),
            Some(MessageView::ChannelSubscribe(m)) => wire::with_message::<Subscribe>(2, m, Seq::empty()),
            Some(MessageView::ChannelUnsubscribe(m)) => wire::with_message::<Unsubscribe>(3, m, Seq::empty()),
            None => Seq::empty(),
        }
    }

    fn new_blank() -> (r: Self) {
        Bcast { message: None }
    }

    fn merge_field(&mut self, tag: u32, raw: Raw) -> (r: Result<(), WireError>) {
        if tag == 1 {
            let mut m: Handshake = match self.message.take() {
                Some(Message::PeerHandshake(m)) => m,
                _ => Handshake::new_blank(),
            };
            match wire::take_nested(&mut m, raw) {
                Ok(()) => {
                    self.message = Some(Message::PeerHandshake(m));
                    Ok(())
                },
                Err(e) => Err(e),
            }
        } else if tag == 2 {
            let mut m: Subscribe = match self.message.take() {
                Some(Message::ChannelSubscribe(m)) => m,
                _ => Subscribe::new_blank(),
            };
            match wire::take_nested(&mut m, raw) {
                Ok(()) => {
                    self.message = Some(Message::ChannelSubscribe(m));
                    Ok(())
                },
                Err(e) => Err(e),
            }
        } else if tag == 3 {
            let mut m: Unsubscribe = match self.message.take() {
                Some(Message::ChannelUnsubscribe(m)) => m,
                _ => Unsubscribe::new_blank(),
            };
            match wire::take_nested(&mut m, raw) {
                Ok(()) => {
                    self.message = Some(Message::ChannelUnsubscribe(m));
                    Ok(())
                },
                Err(e) => Err(e),
            }
        } else {
            Ok(())
        }
    }

    fn encode(&self, out: &mut Vec<u8>) {
        match &self.message {
            Some(Message::PeerHandshake(m)) => wire::put_message(1, m, out),
            Some(Message::ChannelSubscribe(m)) => wire::put_message(2, m, out),
            Some(Message::ChannelUnsubscribe(m)) => wire::put_message(3, m, out),
            None => {
                assert(out@ =~= old(out)@ + Self::encoding(self@));
            },
        }
    }
}

impl BcastView {
    /// The lengths of the fields fit in an integer of the wire format.
    pub open spec fn fits(self) -> bool {
        match self.message {
            Some(MessageView::PeerHandshake(m)) => m.fits() && Handshake::encoding(m).len() <= u64::MAX,
            Some(MessageView::ChannelSubscribe(m)) => m.fits() && Subscribe::encoding(m).len() <= u64::MAX,
            Some(MessageView::ChannelUnsubscribe(m)) => m.fits() && Unsubscribe::encoding(m).len() <= u64::MAX,
            None => true,
        }
    }
}

/// Decoding the encoding of a frame gives the frame back.
pub proof fn law_bcast_round_trip(v: BcastView)
    requires
        v.fits(),
    ensures
        wire::merged::<Bcast>(Bcast::blank(), Bcast::encoding(v)) == Ok::<BcastView, WireError>(v),
{
    let m0 = Bcast::blank();
    match v.message {
        Some(MessageView::PeerHandshake(m)) => {
            lemma_handshake_round_trip(m);
            wire::lemma_merge_bytes::<Bcast>(false, m0, 1, Handshake::encoding(m), Seq::empty());
            assert(wire::merged::<Bcast>(v, Seq::empty()) == Ok::<BcastView, WireError>(v));
        },
        Some(MessageView::ChannelSubscribe(m)) => {
            lemma_subscribe_round_trip(m);
            wire::lemma_merge_bytes::<Bcast>(false, m0, 2, Subscribe::encoding(m), Seq::empty());
            assert(wire::merged::<Bcast>(v, Seq::empty()) == Ok::<BcastView, WireError>(v));
        },
        Some(MessageView::ChannelUnsubscribe(m)) => {
            lemma_unsubscribe_round_trip(m);
            wire::lemma_merge_bytes::<Bcast>(false, m0, 3, Unsubscribe::encoding(m), Seq::empty());
            assert(wire::merged::<Bcast>(v, Seq::empty()) == Ok::<BcastView, WireError>(v));
        },
        None => {},
    }
}

} // verus!
