//! The start of a request body, which is inspected before the body is passed on.

use crate::text;
use std::collections::VecDeque;
use vstd::prelude::*;

verus! {

/// So many bytes of a body are inspected.
pub const BODY_INSPECT_LIMIT: usize = 65_536;

/// The first bytes of a body, up to the limit.
pub open spec fn start_of(bytes: Seq<u8>) -> Seq<u8> {
    if bytes.len() <= BODY_INSPECT_LIMIT {
        bytes
    } else {
        bytes.take(BODY_INSPECT_LIMIT as int)
    }
}

/// All bytes of some pieces.
pub open spec fn all_bytes(pieces: Seq<Seq<u8>>) -> Seq<u8>
    decreases pieces.len(),
{
    if pieces.len() == 0 {
        Seq::empty()
    } else {
        all_bytes(pieces.drop_last()) + pieces.last()
    }
}

/// What the start of a body is after some pieces.
pub open spec fn scanned(pieces: Seq<Seq<u8>>) -> Seq<u8>
    decreases pieces.len(),
{
    if pieces.len() == 0 {
        Seq::empty()
    } else {
        start_of(scanned(pieces.drop_last()) + pieces.last())
    }
}

/// What came next on a body.
#[derive(Clone, Copy, Debug, PartialEq, Eq, Structural)]
pub enum BodyEvent {
    /// A frame, with data or without.
    Frame,
    /// The end.
    End,
    /// A failure of the connection.
    Failed,
    /// Nothing, for too long.
    TimedOut,
}

/// What is done next with a body.
#[derive(Clone, Copy, Debug, PartialEq, Eq, Structural)]
pub enum BodyAction {
    /// Read on.
    Read,
    /// Inspect what was read; there is more to come.
    InspectOpen,
    /// Inspect what was read; that was all.
    InspectEnded,
    /// Give the request up.
    GiveUp,
}

/// The frames of a body that were read for inspection, and the start of its bytes.
pub struct BodyScan<F> {
    pub frames: VecDeque<F>,
    pub head: Vec<u8>,
}

impl<F> BodyScan<F> {
    /// No more bytes are held than are inspected.
    pub open spec fn wf(&self) -> bool {
        self.head@.len() <= BODY_INSPECT_LIMIT
    }

    /// Nothing read yet.
    pub fn new() -> (s: Self)
        ensures
            s.wf(),
            s.frames@ == Seq::<F>::empty(),
            s.head@ == Seq::<u8>::empty(),
    {
        BodyScan { frames: VecDeque::new(), head: Vec::new() }
    }

    /// Whether more is to be read for inspection.
    pub fn wants_more(&self) -> (r: bool)
        ensures
            r == (self.head@.len() < 65_536),
    {
        self.head.len() < BODY_INSPECT_LIMIT
    }

    /// Takes a frame in, with the bytes that it holds.
    pub fn take(&mut self, frame: F, data: &[u8])
        requires
            old(self).wf(),
        ensures
            final(self).wf(),
            final(self).frames@ == old(self).frames@.push(frame),
            final(self).head@ == start_of(old(self).head@ + data@),
    {
        let ghost before = self.head@;
        let mut i: usize = 0;
        assert(data@.take(0) =~= Seq::<u8>::empty());
        assert(self.head@ =~= before + data@.take(0));
        while i < data.len() && self.head.len() < BODY_INSPECT_LIMIT
            invariant
                i <= data@.len(),
                self.head@ == before + data@.take(i as int),
                self.head@.len() <= BODY_INSPECT_LIMIT,
                self.frames == old(self).frames,
            decreases data@.len() - i,
        {
            self.head.push(data[i]);
            assert(self.head@ =~= before + data@.take(i as int + 1));
            i += 1;
        }
        if i == data.len() {
            assert(data@.take(i as int) =~= data@);
        }
        assert(self.head@ =~= start_of(before + data@));
        self.frames.push_back(frame);
    }

    /// What is done after an event; a frame has already been taken in.
    pub fn after(&self, event: BodyEvent) -> (action: BodyAction)
        ensures
            action == (match event {
                BodyEvent::Frame => if self.head@.len() < 65_536 {
                    BodyAction::Read
                } else {
                    BodyAction::InspectOpen
                },
                BodyEvent::End => BodyAction::InspectEnded,
                BodyEvent::Failed => BodyAction::GiveUp,
                BodyEvent::TimedOut => BodyAction::GiveUp,
            }),
    {
        match event {
            BodyEvent::Frame => if self.wants_more() {
                BodyAction::Read
            } else {
                BodyAction::InspectOpen
            },
            BodyEvent::End => BodyAction::InspectEnded,
            BodyEvent::Failed => BodyAction::GiveUp,
            BodyEvent::TimedOut => BodyAction::GiveUp,
        }
    }

    /// The start of the body as text.
    pub fn head_text(&self) -> (s: String)
        ensures
            s@ == text::lossy(self.head@),
    {
        text::lossy_text(self.head.as_slice())
    }

    /// The next frame to be passed on, if one is left of those that were read. The rest
    /// of the body comes only behind them.
    pub fn next_frame(&mut self) -> (f: Option<F>)
        ensures
            final(self).head == old(self).head,
            match f {
                Some(f) => old(self).frames@.len() > 0 && f == old(self).frames@[0]
                    && final(self).frames@ == old(self).frames@.drop_first(),
                None => old(self).frames@.len() == 0 && final(self).frames@ == old(self).frames@,
            },
    {
        let f = self.frames.pop_front();
        proof {
            if f is Some {
                assert(self.frames@ =~= old(self).frames@.drop_first());
            }
        }
        f
    }
}

/// The start of a body is that of all its bytes together, however they are cut into
/// pieces.
pub proof fn law_pieces_do_not_matter(pieces: Seq<Seq<u8>>)
    ensures
        scanned(pieces) == start_of(all_bytes(pieces)),
    decreases pieces.len(),
{
    if pieces.len() > 0 {
        law_pieces_do_not_matter(pieces.drop_last());
        let before = all_bytes(pieces.drop_last());
        let last = pieces.last();
        assert(start_of(start_of(before) + last) =~= start_of(before + last));
    } else {
        assert(start_of(Seq::<u8>::empty()) =~= Seq::<u8>::empty());
    }
}

/// No more is held of a body than is inspected.
pub proof fn law_start_is_bounded(bytes: Seq<u8>)
    ensures
        start_of(bytes).len() <= BODY_INSPECT_LIMIT,
        bytes.len() <= BODY_INSPECT_LIMIT ==> start_of(bytes) == bytes,
{
}

/// The frames that leave a queue one by one, from the front.
pub open spec fn drained<F>(frames: Seq<F>) -> Seq<F>
    decreases frames.len(),
{
    if frames.len() == 0 {
        Seq::empty()
    } else {
        seq![frames[0]] + drained(frames.drop_first())
    }
}

/// The frames are passed on in the order in which they came, each once.
pub proof fn law_frames_keep_their_order<F>(frames: Seq<F>)
    ensures
        drained(frames) == frames,
    decreases frames.len(),
{
    if frames.len() > 0 {
        law_frames_keep_their_order(frames.drop_first());
        assert(seq![frames[0]] + frames.drop_first() =~= frames);
    } else {
        assert(drained(frames) =~= frames);
    }
}

/// What is inspected of a body, in whatever pieces it comes, is its first 65536 bytes, or
/// all of it where it is shorter.
pub proof fn law_first_64_kilobytes_are_inspected(pieces: Seq<Seq<u8>>, bytes: Seq<u8>)
    ensures
        bytes.len() <= 65536 ==> start_of(bytes) == bytes,
        bytes.len() > 65536 ==> start_of(bytes) == bytes.subrange(0, 65536),
        all_bytes(pieces) == pieces.flatten(),
        pieces.flatten().len() <= 65536 ==> scanned(pieces) == pieces.flatten(),
        pieces.flatten().len() > 65536 ==> scanned(pieces) == pieces.flatten().subrange(0, 65536),
{
    law_pieces_do_not_matter(pieces);
    lemma_all_bytes(pieces);
}

proof fn lemma_all_bytes(pieces: Seq<Seq<u8>>)
    ensures
        all_bytes(pieces) == pieces.flatten(),
    decreases pieces.len(),
{
    if pieces.len() == 0 {
        assert(all_bytes(pieces) =~= pieces.flatten());
    } else {
        lemma_all_bytes(pieces.drop_last());
        pieces.drop_last().lemma_flatten_push(pieces.last());
        assert(pieces.drop_last().push(pieces.last()) =~= pieces);
    }
}

} // verus!
