//! The per-channel reorder state and the batch-processing state machine.
//!
//! The behaviour of the engine is pinned down by three specification
//! functions: [`channel_step`] says what one ordered frame does to its
//! channel, [`drain`] says which run of buffered frames an arrival
//! unblocks, and [`scan`] folds a whole frame batch over the channel
//! states. The executable code is proved to follow them exactly.
use std::collections::HashMap;

use vstd::prelude::*;

use crate::packet::CodecError;
use crate::packet::Frame;
use crate::packet::FrameSet;
use crate::packet::OrderAnnotation;
use crate::packet::Packet;

verus! {

broadcast use vstd::std_specs::hash::group_hash_axioms;

/// Mathematical state of one ordering channel: the index of the next
/// frame the channel may release, and the early arrivals keyed by their
/// sequence index.
///
/// `next_expected` lives one step beyond the 32-bit index space on
/// purpose: after the frame with index `u32::MAX` is released the counter
/// stands at `0x1_0000_0000`, where no later frame can ever match it.
/// Comparisons are done in this wider range without modular reduction, so
/// wraparound of the narrower wire index is not resequenced — an open
/// question inherited from the protocol design, not resolved here.
#[verifier::ext_equal]
pub ghost struct ChannelModel {
    pub next_expected: int,
    pub pending: Map<u32, Frame>,
}

/// The state every channel starts from: nothing released, nothing held.
pub open spec fn channel_init() -> ChannelModel {
    ChannelModel { next_expected: 0, pending: Map::empty() }
}

/// Well-formedness of channel `c`'s state: the counter stays within one
/// step past the 32-bit index space, and `pending` holds only frames that
/// are strictly ahead of `next_expected`, each keyed by its own sequence
/// index and annotated with this very channel.
pub open spec fn channel_inv(m: ChannelModel, c: int) -> bool {
    &&& 0 <= m.next_expected <= 0x1_0000_0000
    &&& m.pending.dom().finite()
    &&& forall|k: u32| #[trigger] m.pending.contains_key(k) ==> {
        &&& k as int > m.next_expected
        &&& m.pending[k].ordered == Some(
            OrderAnnotation { frame_index: k, channel: c as u8 },
        )
    }
}

/// Release the longest contiguous run of buffered frames starting at
/// `next_expected`, appending them to `acc` in increasing index order.
pub open spec fn drain(m: ChannelModel, acc: Seq<Frame>) -> (ChannelModel, Seq<Frame>)
    decreases m.pending.dom().len()
        when m.pending.dom().finite()
{
    if m.next_expected <= u32::MAX as int && m.pending.contains_key(m.next_expected as u32) {
        let k = m.next_expected as u32;
        drain(
            ChannelModel { next_expected: m.next_expected + 1, pending: m.pending.remove(k) },
            acc.push(m.pending[k]),
        )
    } else {
        (m, acc)
    }
}

/// One ordered frame arriving on its channel: a stale index is dropped, an
/// early index is buffered, and the expected index is released together
/// with the run of buffered frames it unblocks.
pub open spec fn channel_step(m: ChannelModel, f: Frame, idx: u32) -> (ChannelModel, Seq<Frame>) {
    if (idx as int) < m.next_expected {
        (m, Seq::<Frame>::empty())
    } else if (idx as int) > m.next_expected {
        (
            ChannelModel { next_expected: m.next_expected, pending: m.pending.insert(idx, f) },
            Seq::<Frame>::empty(),
        )
    } else {
        drain(
            ChannelModel { next_expected: m.next_expected + 1, pending: m.pending },
            Seq::<Frame>::empty().push(f),
        )
    }
}

/// What one pass over a frame batch does: either it trips on a frame whose
/// channel is out of range (keeping the channel states as the earlier
/// frames of the batch left them), or it finishes with the final channel
/// states and the released frames, in release order.
#[verifier::ext_equal]
pub ghost enum ScanOutcome {
    BadChannel { channels: Seq<ChannelModel>, channel: u8 },
    Released { channels: Seq<ChannelModel>, out: Seq<Frame> },
}

/// Fold a batch's frames, in their original relative order, over the
/// channel states. Frames without an annotation are released as they
/// stand; annotated frames go through [`channel_step`] on their channel.
pub open spec fn scan(
    channels: Seq<ChannelModel>,
    frames: Seq<Frame>,
    acc: Seq<Frame>,
) -> ScanOutcome
    decreases frames.len(),
{
    if frames.len() == 0 {
        ScanOutcome::Released { channels, out: acc }
    } else {
        let f = frames[0];
        match f.ordered {
            Option::None => scan(channels, frames.skip(1), acc.push(f)),
            Option::Some(a) => {
                if a.channel as int >= channels.len() {
                    ScanOutcome::BadChannel { channels, channel: a.channel }
                } else {
                    let sr = channel_step(channels[a.channel as int], f, a.frame_index);
                    scan(channels.update(a.channel as int, sr.0), frames.skip(1), acc + sr.1)
                }
            },
        }
    }
}

/// One ordering channel's executable state, the exact image of
/// [`ChannelModel`]: the next index this channel may release, and the
/// early arrivals keyed by index.
pub struct ChannelState {
    map: HashMap<u32, Frame>,
    read: u64,
}

impl View for ChannelState {
    type V = ChannelModel;

    closed spec fn view(&self) -> ChannelModel {
        ChannelModel { next_expected: self.read as int, pending: self.map@ }
    }
}

impl ChannelState {
    /// A fresh channel: next expected index zero, nothing buffered.
    pub fn new() -> (r: ChannelState)
        ensures
            r@ == channel_init(),
    {
        let r = ChannelState { map: HashMap::new(), read: 0 };
        proof {
            assert(r@ =~= channel_init());
        }
        r
    }

    /// Feed one ordered frame carrying index `idx` on channel `c` to this
    /// channel's state, appending whatever it releases to `out`.
    fn accept(&mut self, c: u8, idx: u32, frame: Frame, out: &mut Vec<Frame>)
        requires
            channel_inv(old(self)@, c as int),
            frame.ordered == Some(OrderAnnotation { frame_index: idx, channel: c }),
        ensures
            channel_inv(final(self)@, c as int),
            ({
                let sr = channel_step(old(self)@, frame, idx);
                final(self)@ == sr.0 && final(out)@ == old(out)@ + sr.1
            }),
    {
        let ghost m0 = self@;
        let ghost out0 = out@;
        if (idx as u64) < self.read {
            // stale duplicate: drop it without touching anything
            proof {
                assert(out@ =~= out0 + Seq::<Frame>::empty());
            }
        } else if (idx as u64) > self.read {
            self.map.insert(idx, frame);
            proof {
                assert(self@ =~= channel_step(m0, frame, idx).0);
                assert(out@ =~= out0 + Seq::<Frame>::empty());
            }
        } else {
            self.read = self.read + 1;
            out.push(frame);
            let ghost g0 = self@;
            let ghost acc0 = out@;
            proof {
                assert(acc0 =~= out0 + Seq::<Frame>::empty().push(frame));
            }
            while self.read <= u32::MAX as u64 && self.map.contains_key(&(self.read as u32))
                invariant
                    self.read as int <= 0x1_0000_0000,
                    self.map@.dom().finite(),
                    drain(g0, acc0) == drain(self@, out@),
                decreases self.map@.dom().len(),
            {
                let r32: u32 = self.read as u32;
                let ghost m_here = self@;
                let ghost out_here = out@;
                let next = self.map.remove(&r32).unwrap();
                self.read = self.read + 1;
                out.push(next);
                proof {
                    assert(m_here.pending.contains_key(r32));
                    assert(next == m_here.pending[r32]);
                    assert(self@ =~= ChannelModel {
                        next_expected: m_here.next_expected + 1,
                        pending: m_here.pending.remove(r32),
                    });
                    assert(out@ =~= out_here.push(next));
                    assert(drain(m_here, out_here) == drain(self@, out@));
                }
            }
            proof {
                // the loop stopped: nothing at `read` is buffered, so the
                // drain is complete
                assert(drain(self@, out@) == (self@, out@));
                lemma_drain_shifts_acc(g0, acc0);
                lemma_drain_shifts_acc(g0, Seq::<Frame>::empty().push(frame));
                let d = drain(g0, Seq::<Frame>::empty());
                assert(out@ =~= out0 + (Seq::<Frame>::empty().push(frame) + d.1));
                lemma_drain_keeps_inv(g0, acc0, c as int);
            }
        }
    }
}

/// The reorder engine: one independent state per ordering channel,
/// created at construction and mutated only by the frames that name the
/// channel. The asynchronous loop around the engine feeds it one upstream
/// packet at a time through [`Reorder::process`].
pub struct Reorder {
    max_channels: usize,
    channels: Vec<ChannelState>,
}

/// Mathematical state of the whole engine: the configured channel limit
/// and one [`ChannelModel`] per channel.
#[verifier::ext_equal]
pub ghost struct ReorderModel {
    pub max_channels: int,
    pub channels: Seq<ChannelModel>,
}

impl View for Reorder {
    type V = ReorderModel;

    closed spec fn view(&self) -> ReorderModel {
        ReorderModel {
            max_channels: self.max_channels as int,
            channels: self.channels@.map_values(|s: ChannelState| s@),
        }
    }
}

impl Reorder {
    /// Well-formedness: one state per configured channel, the limit within
    /// the single-byte range of the wire encoding, and every channel's
    /// own invariant.
    pub open spec fn wf(&self) -> bool {
        &&& self@.channels.len() == self@.max_channels
        &&& 0 < self@.max_channels < 255
        &&& forall|c: int|
            0 <= c < self@.channels.len() ==> channel_inv(#[trigger] self@.channels[c], c)
    }

    /// Build an engine for `max_channels` independent ordering channels,
    /// every one starting empty with next expected index zero. The limit
    /// must be strictly positive and fit the single-byte channel encoding;
    /// anything else is a construction-time contract violation, not a
    /// runtime error.
    pub fn new(max_channels: usize) -> (r: Reorder)
        requires
            0 < max_channels < 255,
        ensures
            r.wf(),
            r@.max_channels == max_channels,
            forall|c: int| 0 <= c < max_channels ==> #[trigger] r@.channels[c] == channel_init(),
    {
        let mut channels: Vec<ChannelState> = Vec::new();
        while channels.len() < max_channels
            invariant
                channels@.len() <= max_channels,
                forall|i: int|
                    0 <= i < channels@.len() ==> (#[trigger] channels@[i])@ == channel_init(),
            decreases max_channels - channels.len(),
        {
            channels.push(ChannelState::new());
        }
        let r = Reorder { max_channels, channels };
        proof {
            assert forall|c: int|
                0 <= c < r@.channels.len() implies #[trigger] r@.channels[c]
                == channel_init() by {
                assert(r@.channels[c] == channels@[c]@);
            }
            assert(Map::<u32, Frame>::empty().dom() =~= Set::<u32>::empty());
        }
        r
    }

    /// The configured channel limit.
    pub fn max_channels(&self) -> (r: usize)
        ensures
            r == self@.max_channels,
    {
        self.max_channels
    }

    /// The next sequence index channel `channel` is waiting for.
    pub fn next_expected(&self, channel: u8) -> (r: u64)
        requires
            self.wf(),
            (channel as int) < self@.max_channels,
        ensures
            r as int == self@.channels[channel as int].next_expected,
    {
        self.channels[channel as usize].read
    }

    /// How many early arrivals channel `channel` is holding.
    pub fn pending_len(&self, channel: u8) -> (r: usize)
        requires
            self.wf(),
            (channel as int) < self@.max_channels,
        ensures
            r == self@.channels[channel as int].pending.dom().len(),
    {
        self.channels[channel as usize].map.len()
    }

    /// Feed one upstream packet to the engine. A packet that is not a
    /// frame batch passes through untouched. A frame batch is scanned in
    /// order: the result is the batch of every frame released by the scan,
    /// nothing when the scan released no frame (the caller then pulls the
    /// next upstream packet rather than emit an empty batch), or the fatal
    /// error naming the first out-of-range channel the scan hit.
    pub fn process(&mut self, packet: Packet) -> (r: Result<Option<Packet>, CodecError>)
        requires
            old(self).wf(),
        ensures
            final(self).wf(),
            final(self)@.max_channels == old(self)@.max_channels,
            (packet matches Packet::FrameSet(fs) ==> scan_outcome_holds(
                old(self)@,
                final(self)@,
                fs,
                r,
            )),
            (!(packet matches Packet::FrameSet(_)) ==> r == Ok::<Option<Packet>, CodecError>(
                Some(packet),
            ) && final(self)@ == old(self)@),
            // an emitted frame batch is never empty
            (r matches Ok(Some(Packet::FrameSet(f2))) ==> f2.frames@.len() > 0),
    {
        match packet {
            Packet::FrameSet(frame_set) => self.process_frame_set(frame_set),
            other => Ok(Some(other)),
        }
    }

    /// Scan one frame batch against the channel states, exactly as
    /// [`scan`] describes.
    fn process_frame_set(&mut self, frame_set: FrameSet) -> (r: Result<Option<Packet>, CodecError>)
        requires
            old(self).wf(),
        ensures
            final(self).wf(),
            final(self)@.max_channels == old(self)@.max_channels,
            scan_outcome_holds(old(self)@, final(self)@, frame_set, r),
            (r matches Ok(Some(Packet::FrameSet(f2))) ==> f2.frames@.len() > 0),
    {
        let FrameSet { seq_num, mut frames } = frame_set;
        let mut out: Vec<Frame> = Vec::new();
        let ghost chs0 = self@.channels;
        let ghost frames0 = frames@;
        let ghost mc0 = self@.max_channels;
        while frames.len() > 0
            invariant
                self.wf(),
                chs0 == old(self)@.channels,
                frames0 == frame_set.frames@,
                mc0 == old(self)@.max_channels,
                self@.max_channels == mc0,
                scan(chs0, frames0, Seq::<Frame>::empty()) == scan(
                    self@.channels,
                    frames@,
                    out@,
                ),
            decreases frames.len(),
        {
            let ghost snap_chs = self@.channels;
            let ghost snap_frames = frames@;
            let ghost snap_out = out@;
            let frame = frames.remove(0);
            proof {
                assert(snap_frames.remove(0) =~= snap_frames.skip(1));
            }
            match frame.ordered {
                Some(ann) => {
                    let ci = ann.channel as usize;
                    if ci >= self.max_channels {
                        return Err(CodecError::OrderedFrame {
                            channel: ann.channel,
                            max_channels: self.max_channels,
                        });
                    }
                    let ch = &mut self.channels[ci];
                    ch.accept(ann.channel, ann.frame_index, frame, &mut out);
                    proof {
                        let sr = channel_step(snap_chs[ci as int], frame, ann.frame_index);
                        assert(self@.channels =~= snap_chs.update(ci as int, sr.0));
                        assert forall|cc: int|
                            0 <= cc < self@.channels.len() implies channel_inv(
                            #[trigger] self@.channels[cc],
                            cc,
                        ) by {
                            if cc != ci as int {
                                assert(self@.channels[cc] == snap_chs[cc]);
                            }
                        }
                    }
                },
                None => {
                    out.push(frame);
                },
            }
        }
        if out.len() > 0 {
            Ok(Some(Packet::FrameSet(FrameSet { seq_num, frames: out })))
        } else {
            Ok(None)
        }
    }
}

/// How the result and the new channel states of one call relate to the
/// [`scan`] of the batch it was handed: the channel states are the ones
/// the scan ends with (also on the error path, where the frames before
/// the offending one keep their effect), and the result is the error, the
/// released batch, or nothing, exactly as the scan says.
pub open spec fn scan_outcome_holds(
    pre: ReorderModel,
    post: ReorderModel,
    frame_set: FrameSet,
    r: Result<Option<Packet>, CodecError>,
) -> bool {
    match scan(pre.channels, frame_set.frames@, Seq::<Frame>::empty()) {
        ScanOutcome::BadChannel { channels, channel } => {
            &&& post.channels == channels
            &&& r == Err::<Option<Packet>, CodecError>(
                CodecError::OrderedFrame { channel, max_channels: pre.max_channels as usize },
            )
        },
        ScanOutcome::Released { channels, out } => {
            &&& post.channels == channels
            &&& (out.len() == 0 ==> r == Ok::<Option<Packet>, CodecError>(None))
            &&& (out.len() > 0 ==> (r matches Ok(Some(Packet::FrameSet(f2))) && f2.seq_num
                == frame_set.seq_num && f2.frames@ == out))
        },
    }
}

/// The accumulator of [`drain`] only rides along: draining with a longer
/// accumulator appends the same released run to it.
pub proof fn lemma_drain_shifts_acc(m: ChannelModel, acc: Seq<Frame>)
    requires
        m.pending.dom().finite(),
    ensures
        ({
            let d = drain(m, Seq::<Frame>::empty());
            drain(m, acc) == (d.0, acc + d.1)
        }),
    decreases m.pending.dom().len(),
{
    let d = drain(m, Seq::<Frame>::empty());
    if m.next_expected <= u32::MAX as int && m.pending.contains_key(m.next_expected as u32) {
        let k = m.next_expected as u32;
        let f = m.pending[k];
        let m2 = ChannelModel { next_expected: m.next_expected + 1, pending: m.pending.remove(k) };
        lemma_drain_shifts_acc(m2, acc.push(f));
        lemma_drain_shifts_acc(m2, Seq::<Frame>::empty().push(f));
        let d2 = drain(m2, Seq::<Frame>::empty());
        assert(acc.push(f) + d2.1 =~= acc + (Seq::<Frame>::empty().push(f) + d2.1));
    } else {
        assert(acc + Seq::<Frame>::empty() =~= acc);
    }
}

/// Draining preserves the channel invariant, moves `next_expected` only
/// forward, and releases exactly one frame per index it advances over, in
/// increasing index order, each carrying its own index and channel.
pub proof fn lemma_drain_keeps_inv(m: ChannelModel, acc: Seq<Frame>, c: int)
    requires
        0 <= c < 256,
        m.pending.dom().finite(),
        0 <= m.next_expected <= 0x1_0000_0000,
        forall|k: u32| #[trigger] m.pending.contains_key(k) ==> {
            &&& k as int >= m.next_expected
            &&& m.pending[k].ordered == Some(
                OrderAnnotation { frame_index: k, channel: c as u8 },
            )
        },
    ensures
        ({
            let d = drain(m, acc);
            &&& channel_inv(d.0, c)
            &&& d.0.next_expected >= m.next_expected
            &&& d.1.len() == acc.len() + d.0.next_expected - m.next_expected
            &&& forall|j: int| 0 <= j < acc.len() ==> d.1[j] == acc[j]
            &&& forall|j: int|
                acc.len() <= j < d.1.len() ==> (#[trigger] d.1[j]).ordered == Some(
                    OrderAnnotation {
                        frame_index: (m.next_expected + j - acc.len()) as u32,
                        channel: c as u8,
                    },
                )
            &&& forall|k: u32| #[trigger] d.0.pending.contains_key(k) <==> (
                m.pending.contains_key(k) && k as int >= d.0.next_expected)
            &&& forall|k: u32| #[trigger] d.0.pending.contains_key(k) ==> d.0.pending[k]
                == m.pending[k]
            &&& forall|i: int|
                m.next_expected <= i < d.0.next_expected ==> #[trigger] m.pending.contains_key(
                    i as u32,
                )
        }),
    decreases m.pending.dom().len(),
{
    if m.next_expected <= u32::MAX as int && m.pending.contains_key(m.next_expected as u32) {
        let k = m.next_expected as u32;
        let f = m.pending[k];
        let m2 = ChannelModel { next_expected: m.next_expected + 1, pending: m.pending.remove(k) };
        lemma_drain_keeps_inv(m2, acc.push(f), c);
        let d = drain(m, acc);
        assert(d == drain(m2, acc.push(f)));
        assert forall|j: int| 0 <= j < acc.len() implies d.1[j] == acc[j] by {
            assert(d.1[j] == acc.push(f)[j]);
        }
        assert forall|j: int| acc.len() <= j < d.1.len() implies (#[trigger] d.1[j]).ordered
            == Some(
            OrderAnnotation {
                frame_index: (m.next_expected + j - acc.len()) as u32,
                channel: c as u8,
            },
        ) by {
            if j == acc.len() {
                assert(d.1[j] == acc.push(f)[j]);
            }
        }
        assert forall|kk: u32| #[trigger] d.0.pending.contains_key(kk) implies (
        m.pending.contains_key(kk) && kk as int >= d.0.next_expected) by {
            assert(m2.pending.contains_key(kk));
        }
        assert forall|kk: u32|
            m.pending.contains_key(kk) && kk as int
                >= d.0.next_expected implies #[trigger] d.0.pending.contains_key(kk) by {
            assert(d.0.next_expected >= m2.next_expected);
            assert(kk as int > m.next_expected);
            assert(m2.pending.contains_key(kk));
        }
    }
}

} // verus!
