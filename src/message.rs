use vstd::prelude::*;

verus! {

/// The kind of a reliable message.
#[derive(Clone, Copy, Debug, PartialEq, Eq, Structural)]
pub enum RelKind {
    Syn,
    SynAck,
    Data,
    DataAck,
    Rst,
}

/// A message on the wire between two streams.
#[derive(Clone, Debug)]
pub enum Message {
    /// A reliable message: handshake, data, acknowledgement or reset.
    Rel { kind: RelKind, stream_id: u16, seqno: u64, payload: Vec<u8> },
    /// An unreliable datagram.
    Urel { stream_id: u16, payload: Vec<u8> },
}

/// What a message holds, with its payload as a sequence of bytes.
pub enum MessageView {
    Rel { kind: RelKind, stream_id: u16, seqno: u64, payload: Seq<u8> },
    Urel { stream_id: u16, payload: Seq<u8> },
}

impl View for Message {
    type V = MessageView;

    open spec fn view(&self) -> MessageView {
        match self {
            Message::Rel { kind, stream_id, seqno, payload } => MessageView::Rel {
                kind: *kind,
                stream_id: *stream_id,
                seqno: *seqno,
                payload: payload@,
            },
            Message::Urel { stream_id, payload } => MessageView::Urel {
                stream_id: *stream_id,
                payload: payload@,
            },
        }
    }
}

impl Message {
    /// The sequence number of a reliable message; zero for a datagram.
    pub open spec fn spec_seqno(&self) -> u64 {
        match self {
            Message::Rel { seqno, .. } => *seqno,
            Message::Urel { .. } => 0,
        }
    }

    /// The sequence number of a reliable message; zero for a datagram.
    pub fn seqno(&self) -> (r: u64)
        ensures
            r == self.spec_seqno(),
    {
        match self {
            Message::Rel { seqno, .. } => *seqno,
            Message::Urel { .. } => 0,
        }
    }

    /// A copy of the message, with equal contents.
    pub fn duplicate(&self) -> (r: Message)
        ensures
            r@ == self@,
            r.spec_seqno() == self.spec_seqno(),
    {
        match self {
            Message::Rel { kind, stream_id, seqno, payload } => Message::Rel {
                kind: *kind,
                stream_id: *stream_id,
                seqno: *seqno,
                payload: payload.clone(),
            },
            Message::Urel { stream_id, payload } => Message::Urel {
                stream_id: *stream_id,
                payload: payload.clone(),
            },
        }
    }
}

} // verus!
