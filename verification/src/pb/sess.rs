//! Frames of SESS streams.

use vstd::prelude::*;

use crate::pb::wire;
use crate::pb::wire::{Message as _, Raw, RawView};
use crate::pb::WireError;

verus! {

/// Opens a session.
#[derive(Debug, Clone, PartialEq, Eq)]
pub struct Open {
    pub channel: String,
    pub message_id: String,
    pub preamble: Vec<u8>,
    pub initial_update: Vec<u8>,
}

/// Contents of an [`Open`].
#[verifier::ext_equal]
pub ghost struct OpenView {
    pub channel: Seq<char>,
    pub message_id: Seq<char>,
    pub preamble: Seq<u8>,
    pub initial_update: Seq<u8>,
}

impl View for Open {
    type V = OpenView;

    open spec fn view(&self) -> OpenView {
        OpenView { channel: self.channel@, message_id: self.message_id@, preamble: self.preamble@, initial_update: self.initial_update@ }
    }
}

impl wire::Message for Open {
    open spec fn blank() -> OpenView {
        OpenView { channel: Seq::empty(), message_id: Seq::empty(), preamble: Seq::empty(), initial_update: Seq::empty() }
    }

    open spec fn applied(v: OpenView, tag: u32, raw: RawView) -> Result<OpenView, WireError> {
        if tag == 1 {
            match wire::text_of(raw) {
                Ok(channel) => Ok(OpenView { channel, ..v }),
                Err(e) => Err(e),
            }
        } else if tag == 2 {
            match wire::text_of(raw) {
                Ok(message_id) => Ok(OpenView { message_id, ..v }),
                Err(e) => Err(e),
            }
        } else if tag == 3 {
            match wire::blob_of(raw) {
                Ok(preamble) => Ok(OpenView { preamble, ..v }),
                Err(e) => Err(e),
            }
        } else if tag == 4 {
            match wire::blob_of(raw) {
                Ok(initial_update) => Ok(OpenView { initial_update, ..v }),
                Err(e) => Err(e),
            }
        } else {
            Ok(v)
        }
    }

    open spec fn encoding(v: OpenView) -> Seq<u8> {
        wire::with_text(1, v.channel, wire::with_text(2, v.message_id, wire::with_blob(3, v.preamble, wire::with_blob(4, v.initial_update, Seq::empty()))))
    }

    fn new_blank() -> (r: Self) {
        let r = Open { channel: String::new(), message_id: String::new(), preamble: Vec::new(), initial_update: Vec::new() };
        assert(r@ =~= Self::blank());
        r
    }

    fn merge_field(&mut self, tag: u32, raw: Raw) -> (r: Result<(), WireError>) {
        if tag == 1 {
            match wire::take_text(raw) {
                Ok(v) => {
                    self.channel = v;
                    Ok(())
                },
                Err(e) => Err(e),
            }
        } else if tag == 2 {
            match wire::take_text(raw) {
                Ok(v) => {
                    self.message_id = v;
                    Ok(())
                },
                Err(e) => Err(e),
            }
        } else if tag == 3 {
            match wire::take_blob(raw) {
                Ok(v) => {
                    self.preamble = v;
                    Ok(())
                },
                Err(e) => Err(e),
            }
        } else if tag == 4 {
            match wire::take_blob(raw) {
                Ok(v) => {
                    self.initial_update = v;
                    Ok(())
                },
                Err(e) => Err(e),
            }
        } else {
            Ok(())
        }
    }

    fn encode(&self, out: &mut Vec<u8>) {
        let ghost t4 = wire::with_blob(4, self@.initial_update, Seq::empty());
        let ghost t3 = wire::with_blob(3, self@.preamble, t4);
        let ghost t2 = wire::with_text(2, self@.message_id, t3);
        wire::put_text(1, &self.channel, out);
        assert(out@ + t2 == old(out)@ + Self::encoding(self@));
        wire::put_text(2, &self.message_id, out);
        assert(out@ + t3 == old(out)@ + Self::encoding(self@));
        wire::put_blob(3, self.preamble.as_slice(), out);
        assert(out@ + t4 == old(out)@ + Self::encoding(self@));
        wire::put_blob(4, self.initial_update.as_slice(), out);
        assert(out@ + Seq::<u8>::empty() =~= out@);
    }
}

proof fn lemma_open_round_trip(v: OpenView)
    requires
        v.fits(),
    ensures
        wire::merged_at::<Open>(Open::blank(), Open::encoding(v), true) == Ok::<OpenView, WireError>(v),
{
    let t4 = wire::with_blob(4, v.initial_update, Seq::empty());
    let t3 = wire::with_blob(3, v.preamble, t4);
    let t2 = wire::with_text(2, v.message_id, t3);
    let m0 = Open::blank();
    let m1 = OpenView { channel: v.channel, ..m0 };
    wire::lemma_merge_text::<Open>(true, m0, 1, v.channel, t2);
    assert(wire::merged_at::<Open>(m0, Open::encoding(v), true) == wire::merged_at::<Open>(m1, t2, true));
    let m2 = OpenView { message_id: v.message_id, ..m1 };
    wire::lemma_merge_text::<Open>(true, m1, 2, v.message_id, t3);
    let m3 = OpenView { preamble: v.preamble, ..m2 };
    wire::lemma_merge_bytes::<Open>(true, m2, 3, v.preamble, t4);
    if v.preamble.len() == 0 {
        assert(v.preamble =~= m2.preamble);
    }
    let m4 = OpenView { initial_update: v.initial_update, ..m3 };
    wire::lemma_merge_bytes::<Open>(true, m3, 4, v.initial_update, Seq::empty());
    if v.initial_update.len() == 0 {
        assert(v.initial_update =~= m3.initial_update);
    }
    assert(m4 =~= v);
}

impl OpenView {
    /// The lengths of the fields fit in an integer of the wire format.
    pub open spec fn fits(self) -> bool {
        &&& vstd::utf8::encode_utf8(self.channel).len() <= u64::MAX
        &&& vstd::utf8::encode_utf8(self.message_id).len() <= u64::MAX
        &&& self.preamble.len() <= u64::MAX
        &&& self.initial_update.len() <= u64::MAX
    }
}

/// Carries a routing update of the strategy.
#[derive(Debug, Clone, PartialEq, Eq)]
pub struct Update {
    pub data: Vec<u8>,
}

/// Contents of an [`Update`].
#[verifier::ext_equal]
pub ghost struct UpdateView {
    pub data: Seq<u8>,
}

impl View for Update {
    type V = UpdateView;

    open spec fn view(&self) -> UpdateView {
        UpdateView { data: self.data@ }
    }
}

impl wire::Message for Update {
    open spec fn blank() -> UpdateView {
        UpdateView { data: Seq::empty() }
    }

    open spec fn applied(v: UpdateView, tag: u32, raw: RawView) -> Result<UpdateView, WireError> {
        if tag == 1 {
            match wire::blob_of(raw) {
                Ok(data) => Ok(UpdateView { data }),
                Err(e) => Err(e),
            }
        } else {
            Ok(v)
        }
    }

    open spec fn encoding(v: UpdateView) -> Seq<u8> {
        wire::with_blob(1, v.data, Seq::empty())
    }

    fn new_blank() -> (r: Self) {
        let r = Update { data: Vec::new() };
        assert(r@ =~= Self::blank());
        r
    }

    fn merge_field(&mut self, tag: u32, raw: Raw) -> (r: Result<(), WireError>) {
        if tag == 1 {
            match wire::take_blob(raw) {
                Ok(v) => {
                    self.data = v;
                    Ok(())
                },
                Err(e) => Err(e),
            }
        } else {
            Ok(())
        }
    }

    fn encode(&self, out: &mut Vec<u8>) {
        wire::put_blob(1, self.data.as_slice(), out);
        assert(out@ + Seq::<u8>::empty() =~= out@);
    }
}

proof fn lemma_update_round_trip(v: UpdateView)
    requires
        v.fits(),
    ensures
        wire::merged_at::<Update>(Update::blank(), Update::encoding(v), true) == Ok::<UpdateView, WireError>(v),
{
    let m0 = Update::blank();
    let m1 = UpdateView { data: v.data };
    wire::lemma_merge_bytes::<Update>(true, m0, 1, v.data, Seq::empty());
    if v.data.len() == 0 {
        assert(v.data =~= m0.data);
    }
    assert(wire::merged_at::<Update>(m0, Update::encoding(v), true) == wire::merged_at::<Update>(m1, Seq::empty(), true));
    assert(m1 =~= v);
}

impl UpdateView {
    /// The lengths of the fields fit in an integer of the wire format.
    pub open spec fn fits(self) -> bool {
        &&& self.data.len() <= u64::MAX
    }
}

/// What a SESS frame carries.
#[derive(Debug, Clone, PartialEq, Eq)]
pub enum Frame {
    /// First frame on the stream.
    SessionOpen(Open),
    /// A routing update.
    RoutingUpdate(Update),
}

/// Contents of a [`Frame`].
#[verifier::ext_equal]
pub ghost enum FrameView {
    SessionOpen(OpenView),
    RoutingUpdate(UpdateView),
}

impl View for Frame {
    type V = FrameView;

    open spec fn view(&self) -> FrameView {
        match self {
            Frame::SessionOpen(m) => FrameView::SessionOpen(m@),
            Frame::RoutingUpdate(m) => FrameView::RoutingUpdate(m@),
        }
    }
}

/// A frame of a SESS stream.
#[derive(Debug, Clone, PartialEq, Eq)]
pub struct Sess {
    pub frame: Option<Frame>,
}

/// Contents of a [`Sess`].
#[verifier::ext_equal]
pub ghost struct SessView {
    pub frame: Option<FrameView>,
}

impl View for Sess {
    type V = SessView;

    open spec fn view(&self) -> SessView {
        SessView {
            frame: match self.frame {
                Some(m) => Some(m@),
                None => None,
            },
        }
    }
}

impl Sess {
    /// The frame that `bytes` encode.
    pub fn decode(bytes: &[u8]) -> (r: Result<Sess, WireError>)
        ensures
            match r {
                Ok(m) => wire::merged::<Sess>(Sess::blank(), bytes@) == Ok::<SessView, WireError>(m@),
                Err(e) => wire::merged::<Sess>(Sess::blank(), bytes@) == Err::<SessView, WireError>(e),
            },
    {
        wire::decode_message(bytes)
    }
}

impl wire::Message for Sess {
    open spec fn blank() -> SessView {
        SessView { frame: None }
    }

    open spec fn applied(v: SessView, tag: u32, raw: RawView) -> Result<SessView, WireError> {
        if tag == 1 {
            let before = match v.frame {
                Some(FrameView::SessionOpen(m)) => m,
                _ => Open::blank(),
            };
            match wire::nested_of::<Open>(before, raw) {
                Ok(m) => Ok(SessView { frame: Some(FrameView::SessionOpen(m)) }),
                Err(e) => Err(e),
            }
        } else if tag == 2 {
            let before = match v.frame {
                Some(FrameView::RoutingUpdate(m)) => m,
                _ => Update::blank(),
            };
            match wire::nested_of::<Update>(before, raw) {
                Ok(m) => Ok(SessView { frame: Some(FrameView::RoutingUpdate(m)) }),
                Err(e) => Err(e),
            }
        } else {
            Ok(v)
        }
    }

    open spec fn encoding(v: SessView) -> Seq<u8> {
        match v.frame {
            Some(FrameView::SessionOpen(m)) => wire::with_message::<Open>(1, m, Seq::empty()),
            Some(FrameView::RoutingUpdate(m)) => wire::with_message::<Update>(2, m, Seq::empty()),
            None => Seq::empty(),
        }
    }

    fn new_blank() -> (r: Self) {
        Sess { frame: None }
    }

    fn merge_field(&mut self, tag: u32, raw: Raw) -> (r: Result<(), WireError>) {
        if tag == 1 {
            let mut m: Open = match self.frame.take() {
                Some(Frame::SessionOpen(m)) => m,
                _ => Open::new_blank(),
            };
            match wire::take_nested(&mut m, raw) {
                Ok(()) => {
                    self.frame = Some(Frame::SessionOpen(m));
                    Ok(())
                },
                Err(e) => Err(e),
            }
        } else if tag == 2 {
            let mut m: Update = match self.frame.take() {
                Some(Frame::RoutingUpdate(m)) => m,
                _ => Update::new_blank(),
            };
            match wire::take_nested(&mut m, raw) {
                Ok(()) => {
                    self.frame = Some(Frame::RoutingUpdate(m));
                    Ok(())
                },
                Err(e) => Err(e),
            }
        } else {
            Ok(())
        }
    }

    fn encode(&self, out: &mut Vec<u8>) {
        match &self.frame {
            Some(Frame::SessionOpen(m)) => wire::put_message(1, m, out),
            Some(Frame::RoutingUpdate(m)) => wire::put_message(2, m, out),
            None => {
                assert(out@ =~= old(out)@ + Self::encoding(self@));
            },
        }
    }
}

impl SessView {
    /// The lengths of the fields fit in an integer of the wire format.
    pub open spec fn fits(self) -> bool {
        match self.frame {
            Some(FrameView::SessionOpen(m)) => m.fits() && Open::encoding(m).len() <= u64::MAX,
            Some(FrameView::RoutingUpdate(m)) => m.fits() && Update::encoding(m).len() <= u64::MAX,
            None => true,
        }
    }
}

/// Decoding the encoding of a frame gives the frame back.
pub proof fn law_sess_round_trip(v: SessView)
    requires
        v.fits(),
    ensures
        wire::merged::<Sess>(Sess::blank(), Sess::encoding(v)) == Ok::<SessView, WireError>(v),
{
    let m0 = Sess::blank();
    match v.frame {
        Some(FrameView::SessionOpen(m)) => {
            lemma_open_round_trip(m);
            wire::lemma_merge_bytes::<Sess>(false, m0, 1, Open::encoding(m), Seq::empty());
            assert(wire::merged::<Sess>(v, Seq::empty()) == Ok::<SessView, WireError>(v));
        },
        Some(FrameView::RoutingUpdate(m)) => {
            lemma_update_round_trip(m);
            wire::lemma_merge_bytes::<Sess>(false, m0, 2, Update::encoding(m), Seq::empty());
            assert(wire::merged::<Sess>(v, Seq::empty()) == Ok::<SessView, WireError>(v));
        },
        None => {},
    }
}

} // verus!
