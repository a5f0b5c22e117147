//! The engine's guarantees, stated and proved over the specification
//! functions of [`crate::ordered`].
use vstd::prelude::*;
use vstd::set_lib::set_int_range;

use crate::ordered::channel_init;
use crate::ordered::channel_inv;
use crate::ordered::channel_step;
use crate::ordered::drain;
use crate::ordered::lemma_drain_keeps_inv;
use crate::ordered::scan;
use crate::ordered::ChannelModel;
use crate::ordered::ScanOutcome;
use crate::packet::Frame;
use crate::packet::OrderAnnotation;

verus! {

/// Stale discard: a frame whose index lies below the channel's next
/// expected index releases nothing and leaves the channel state — both
/// `next_expected` and the buffered frames — exactly as it was.
pub proof fn lemma_stale_frame_dropped(m: ChannelModel, f: Frame, idx: u32)
    requires
        (idx as int) < m.next_expected,
    ensures
        channel_step(m, f, idx) == (m, Seq::<Frame>::empty()),
{
}

/// Pass-through: a batch in which no frame carries an ordering annotation
/// is reproduced unchanged — every frame is released as it stands, in its
/// original position, and no channel state moves. Running such a batch
/// through the engine any number of times therefore yields the batch
/// itself each time.
pub proof fn lemma_unordered_batch_passthrough(
    channels: Seq<ChannelModel>,
    frames: Seq<Frame>,
    acc: Seq<Frame>,
)
    requires
        forall|i: int| 0 <= i < frames.len() ==> ((#[trigger] frames[i]).ordered is None),
    ensures
        scan(channels, frames, acc) == (ScanOutcome::Released { channels, out: acc + frames }),
    decreases frames.len(),
{
    if frames.len() == 0 {
        assert(acc + frames =~= acc);
    } else {
        let f = frames[0];
        lemma_unordered_batch_passthrough(channels, frames.skip(1), acc.push(f));
        assert(acc.push(f) + frames.skip(1) =~= acc + frames);
    }
}

/// Whether a frame carries an ordering annotation naming channel `c`.
pub open spec fn names_channel(f: Frame, c: u8) -> bool {
    f.ordered is Some && f.ordered->Some_0.channel == c
}

/// The subsequence of `frames` annotated with channel `c`, in order.
pub open spec fn frames_on_channel(frames: Seq<Frame>, c: u8) -> Seq<Frame>
    decreases frames.len(),
{
    if frames.len() == 0 {
        Seq::<Frame>::empty()
    } else if names_channel(frames[0], c) {
        Seq::<Frame>::empty().push(frames[0]) + frames_on_channel(frames.skip(1), c)
    } else {
        frames_on_channel(frames.skip(1), c)
    }
}

/// The indices a channel has accounted for: everything already released
/// (all indices below `next_expected`) together with everything buffered.
pub open spec fn seen(m: ChannelModel) -> Set<int> {
    Set::new(
        |x: int|
            (0 <= x < m.next_expected) || (0 <= x <= u32::MAX as int && m.pending.contains_key(
                x as u32,
            )),
    )
}

/// The set of sequence indices the annotated frames of `arrivals` carry.
pub open spec fn arrival_index_set(arrivals: Seq<Frame>) -> Set<int> {
    Set::new(
        |x: int|
            exists|i: int|
                0 <= i < arrivals.len() && ((#[trigger] arrivals[i]).ordered->Some_0.frame_index
                    as int) == x,
    )
}

/// Feed a channel the ordered frames it sees over its lifetime, in
/// arrival order — however the surrounding batches grouped them —
/// collecting everything the channel releases, in release order.
pub open spec fn channel_feed(m: ChannelModel, arrivals: Seq<Frame>) -> (ChannelModel, Seq<Frame>)
    decreases arrivals.len(),
{
    if arrivals.len() == 0 {
        (m, Seq::<Frame>::empty())
    } else {
        match arrivals[0].ordered {
            Some(a) => {
                let sr = channel_step(m, arrivals[0], a.frame_index);
                let rest = channel_feed(sr.0, arrivals.skip(1));
                (rest.0, sr.1 + rest.1)
            },
            None => channel_feed(m, arrivals.skip(1)),
        }
    }
}

/// Projecting onto a channel distributes over concatenation.
pub proof fn lemma_on_channel_add(a: Seq<Frame>, b: Seq<Frame>, c: u8)
    ensures
        frames_on_channel(a + b, c) == frames_on_channel(a, c) + frames_on_channel(b, c),
    decreases a.len(),
{
    if a.len() == 0 {
        assert(a + b =~= b);
        assert(frames_on_channel(a, c) + frames_on_channel(b, c) =~= frames_on_channel(b, c));
    } else {
        assert((a + b).skip(1) =~= a.skip(1) + b);
        lemma_on_channel_add(a.skip(1), b, c);
        assert((a + b)[0] == a[0]);
        if names_channel(a[0], c) {
            assert(Seq::<Frame>::empty().push(a[0]) + (frames_on_channel(a.skip(1), c)
                + frames_on_channel(b, c)) =~= (Seq::<Frame>::empty().push(a[0])
                + frames_on_channel(a.skip(1), c)) + frames_on_channel(b, c));
        }
    }
}

/// A sequence in which every frame names channel `c` projects to itself;
/// one in which no frame does projects to nothing.
pub proof fn lemma_on_channel_of_uniform(s: Seq<Frame>, c: u8)
    ensures
        (forall|i: int| 0 <= i < s.len() ==> names_channel(#[trigger] s[i], c))
            ==> frames_on_channel(s, c) == s,
        (forall|i: int| 0 <= i < s.len() ==> !names_channel(#[trigger] s[i], c))
            ==> frames_on_channel(s, c) == Seq::<Frame>::empty(),
    decreases s.len(),
{
    if s.len() == 0 {
    } else {
        lemma_on_channel_of_uniform(s.skip(1), c);
        if forall|i: int| 0 <= i < s.len() ==> names_channel(#[trigger] s[i], c) {
            assert(Seq::<Frame>::empty().push(s[0]) + s.skip(1) =~= s);
        }
    }
}

/// One [`channel_step`] on a well-formed channel keeps it well-formed,
/// and everything it releases names that very channel.
proof fn lemma_channel_step_releases(m: ChannelModel, f: Frame, idx: u32, c: u8)
    requires
        channel_inv(m, c as int),
        f.ordered == Some(OrderAnnotation { frame_index: idx, channel: c }),
    ensures
        ({
            let sr = channel_step(m, f, idx);
            &&& channel_inv(sr.0, c as int)
            &&& forall|j: int|
                0 <= j < sr.1.len() ==> names_channel(#[trigger] sr.1[j], c)
        }),
{
    let sr = channel_step(m, f, idx);
    if (idx as int) > m.next_expected {
        assert forall|k: u32| #[trigger] sr.0.pending.contains_key(k) implies k as int
            > sr.0.next_expected && sr.0.pending[k].ordered == Some(
            OrderAnnotation { frame_index: k, channel: c },
        ) by {
            if k != idx {
                assert(m.pending.contains_key(k));
            }
        }
    } else if (idx as int) == m.next_expected {
        let g0 = ChannelModel { next_expected: m.next_expected + 1, pending: m.pending };
        let acc0 = Seq::<Frame>::empty().push(f);
        lemma_drain_keeps_inv(g0, acc0, c as int);
        let d = drain(g0, acc0);
        assert(sr == d);
        assert forall|j: int| 0 <= j < sr.1.len() implies names_channel(
            #[trigger] sr.1[j],
            c,
        ) by {
            if j == 0 {
                assert(d.1[0] == acc0[0]);
            } else {
                assert(d.1[j].ordered == Some(
                    OrderAnnotation {
                        frame_index: (g0.next_expected + j - 1) as u32,
                        channel: c,
                    },
                ));
            }
        }
    }
}

/// One batch scan, watched from a single channel: when the scan finishes
/// (no out-of-range channel), channel `c` ends exactly where feeding it
/// the batch's channel-`c` frames alone would leave it, and the frames
/// the scan releases on channel `c` are exactly what that feed releases.
pub proof fn lemma_scan_projects_to_channel(
    channels: Seq<ChannelModel>,
    frames: Seq<Frame>,
    acc: Seq<Frame>,
    c: u8,
)
    requires
        channels.len() <= 255,
        forall|ch: int| 0 <= ch < channels.len() ==> channel_inv(#[trigger] channels[ch], ch),
        (c as int) < channels.len(),
    ensures
        (scan(channels, frames, acc) matches ScanOutcome::Released { channels: chs2, out }
            ==> ({
            let fd = channel_feed(channels[c as int], frames_on_channel(frames, c));
            &&& chs2.len() == channels.len()
            &&& chs2[c as int] == fd.0
            &&& frames_on_channel(out, c) == frames_on_channel(acc, c) + fd.1
        })),
    decreases frames.len(),
{
    if frames.len() == 0 {
        assert(frames_on_channel(acc, c) + Seq::<Frame>::empty() =~= frames_on_channel(acc, c));
    } else {
        let f = frames[0];
        match f.ordered {
            Option::None => {
                lemma_scan_projects_to_channel(channels, frames.skip(1), acc.push(f), c);
                let single = Seq::<Frame>::empty().push(f);
                assert(acc.push(f) =~= acc + single);
                lemma_on_channel_add(acc, single, c);
                lemma_on_channel_of_uniform(single, c);
                assert forall|i: int| 0 <= i < single.len() implies !names_channel(
                    #[trigger] single[i],
                    c,
                ) by {
                    assert(single[i] == f);
                }
                assert(frames_on_channel(acc.push(f), c) =~= frames_on_channel(acc, c));
            },
            Option::Some(a) => {
                if (a.channel as int) < channels.len() {
                    let cp = a.channel;
                    let m = channels[cp as int];
                    let sr = channel_step(m, f, a.frame_index);
                    assert(f.ordered == Some(
                        OrderAnnotation { frame_index: a.frame_index, channel: cp },
                    ));
                    lemma_channel_step_releases(m, f, a.frame_index, cp);
                    let channels2 = channels.update(cp as int, sr.0);
                    assert forall|ch: int|
                        0 <= ch < channels2.len() implies channel_inv(
                        #[trigger] channels2[ch],
                        ch,
                    ) by {
                        if ch != cp as int {
                            assert(channels2[ch] == channels[ch]);
                        }
                    }
                    lemma_scan_projects_to_channel(channels2, frames.skip(1), acc + sr.1, c);
                    lemma_on_channel_add(acc, sr.1, c);
                    lemma_on_channel_of_uniform(sr.1, c);
                    if cp == c {
                        let proj = frames_on_channel(frames, c);
                        assert(proj == Seq::<Frame>::empty().push(f) + frames_on_channel(
                            frames.skip(1),
                            c,
                        ));
                        assert(proj[0] == f);
                        assert(proj.skip(1) =~= frames_on_channel(frames.skip(1), c));
                        assert(frames_on_channel(sr.1, c) == sr.1);
                        match scan(channels, frames, acc) {
                            ScanOutcome::Released { channels: chs2, out } => {
                                let rest_fd = channel_feed(
                                    sr.0,
                                    frames_on_channel(frames.skip(1), c),
                                );
                                assert(frames_on_channel(out, c) == (frames_on_channel(acc, c)
                                    + sr.1) + rest_fd.1);
                                assert((frames_on_channel(acc, c) + sr.1) + rest_fd.1
                                    =~= frames_on_channel(acc, c) + (sr.1 + rest_fd.1));
                            },
                            ScanOutcome::BadChannel { .. } => {},
                        }
                    } else {
                        assert(channels2[c as int] == channels[c as int]);
                        assert forall|j: int|
                            0 <= j < sr.1.len() implies !names_channel(
                            #[trigger] sr.1[j],
                            c,
                        ) by {}
                        assert(frames_on_channel(sr.1, c) == Seq::<Frame>::empty());
                        assert(frames_on_channel(frames, c) == frames_on_channel(
                            frames.skip(1),
                            c,
                        ));
                        assert(frames_on_channel(acc + sr.1, c) =~= frames_on_channel(acc, c));
                    }
                }
            },
        }
    }
}

/// Every frame a succession of batches carries, in arrival order.
pub open spec fn run_frames(batches: Seq<Seq<Frame>>) -> Seq<Frame>
    decreases batches.len(),
{
    if batches.len() == 0 {
        Seq::<Frame>::empty()
    } else {
        batches[0] + run_frames(batches.skip(1))
    }
}

/// Pass-through idempotence over a whole run: batches in which no frame
/// carries an ordering annotation are reproduced exactly, batch for
/// batch, and every channel is left untouched — so running the transform
/// over such traffic any number of times always reproduces it.
pub proof fn lemma_unordered_run_passthrough(
    channels: Seq<ChannelModel>,
    batches: Seq<Seq<Frame>>,
)
    requires
        forall|b: int, i: int|
            0 <= b < batches.len() && 0 <= i < batches[b].len() ==> ((#[trigger] batches[b][i]).ordered is None),
    ensures
        scan_run(channels, batches) == Some((channels, run_frames(batches))),
    decreases batches.len(),
{
    if batches.len() == 0 {
    } else {
        let head = batches[0];
        assert forall|i: int| 0 <= i < head.len() implies ((#[trigger] head[i]).ordered
            is None) by {
            assert(batches[0][i] == head[i]);
        }
        lemma_unordered_batch_passthrough(channels, head, Seq::<Frame>::empty());
        assert(Seq::<Frame>::empty() + head =~= head);
        let rest = batches.skip(1);
        assert forall|b: int, i: int|
            0 <= b < rest.len() && 0 <= i < rest[b].len() implies ((#[trigger] rest[b][i]).ordered
            is None) by {
            assert(rest[b] == batches[b + 1]);
        }
        lemma_unordered_run_passthrough(channels, rest);
    }
}

/// Whether a frame names an ordering channel at or beyond `limit`.
pub open spec fn exceeds_limit(f: Frame, limit: int) -> bool {
    f.ordered is Some && f.ordered->Some_0.channel as int >= limit
}

/// Out-of-range channel is fatal, and nothing else is: a batch scan ends
/// in the error exactly when some frame of the batch names a channel at
/// or beyond the configured limit, and the error identifies the channel
/// of the first such frame.
pub proof fn lemma_bad_channel_iff(channels: Seq<ChannelModel>, frames: Seq<Frame>, acc: Seq<Frame>)
    ensures
        (scan(channels, frames, acc) is BadChannel) <==> (exists|i: int|
            0 <= i < frames.len() && exceeds_limit(#[trigger] frames[i], channels.len() as int)),
        (scan(channels, frames, acc) matches ScanOutcome::BadChannel { channel, .. } ==> (exists|
            i: int,
        |
            0 <= i < frames.len() && (#[trigger] frames[i]).ordered->Some_0.channel == channel
                && exceeds_limit(frames[i], channels.len() as int) && (forall|j: int|
                0 <= j < i ==> !exceeds_limit(#[trigger] frames[j], channels.len() as int)))),
    decreases frames.len(),
{
    if frames.len() == 0 {
    } else {
        let f = frames[0];
        let rest = frames.skip(1);
        match f.ordered {
            Option::None => {
                lemma_bad_channel_iff(channels, rest, acc.push(f));
                lemma_bad_channel_shift(channels.len() as int, frames);
            },
            Option::Some(a) => {
                if (a.channel as int) < channels.len() {
                    let sr = channel_step(channels[a.channel as int], f, a.frame_index);
                    lemma_bad_channel_iff(
                        channels.update(a.channel as int, sr.0),
                        rest,
                        acc + sr.1,
                    );
                    lemma_bad_channel_shift(channels.len() as int, frames);
                }
            },
        }
    }
}

/// When the first frame is within the limit, the offenders among the
/// whole batch are exactly the offenders among the rest, shifted by one.
proof fn lemma_bad_channel_shift(limit: int, frames: Seq<Frame>)
    requires
        frames.len() > 0,
        !exceeds_limit(frames[0], limit),
    ensures
        (exists|i: int| 0 <= i < frames.len() && exceeds_limit(#[trigger] frames[i], limit))
            <==> (exists|i: int|
            0 <= i < frames.skip(1).len() && exceeds_limit(#[trigger] frames.skip(1)[i], limit)),
        (forall|i: int|
            0 <= i < frames.skip(1).len() && exceeds_limit(#[trigger] frames.skip(1)[i], limit)
                && (forall|j: int| 0 <= j < i ==> !exceeds_limit(#[trigger] frames.skip(1)[j], limit))
                ==> (exceeds_limit(frames[i + 1], limit) && (forall|j: int|
                0 <= j < i + 1 ==> !exceeds_limit(#[trigger] frames[j], limit)))),
{
    let rest = frames.skip(1);
    if exists|i: int| 0 <= i < frames.len() && exceeds_limit(#[trigger] frames[i], limit) {
        let i = choose|i: int| 0 <= i < frames.len() && exceeds_limit(#[trigger] frames[i], limit);
        assert(i > 0);
        assert(rest[i - 1] == frames[i]);
    }
    if exists|i: int| 0 <= i < rest.len() && exceeds_limit(#[trigger] rest[i], limit) {
        let i = choose|i: int| 0 <= i < rest.len() && exceeds_limit(#[trigger] rest[i], limit);
        assert(frames[i + 1] == rest[i]);
    }
    assert forall|i: int|
        0 <= i < rest.len() && exceeds_limit(#[trigger] rest[i], limit) && (forall|j: int|
            0 <= j < i ==> !exceeds_limit(#[trigger] rest[j], limit)) implies (exceeds_limit(
        frames[i + 1],
        limit,
    ) && (forall|j: int| 0 <= j < i + 1 ==> !exceeds_limit(#[trigger] frames[j], limit))) by {
        assert(frames[i + 1] == rest[i]);
        assert forall|j: int| 0 <= j < i + 1 implies !exceeds_limit(
            #[trigger] frames[j],
            limit,
        ) by {
            if j > 0 {
                assert(rest[j - 1] == frames[j]);
            }
        }
    }
}

/// The channel states an outcome carries, on either path.
pub open spec fn channels_of(o: ScanOutcome) -> Seq<ChannelModel> {
    match o {
        ScanOutcome::BadChannel { channels, .. } => channels,
        ScanOutcome::Released { channels, .. } => channels,
    }
}

/// A batch scan preserves every channel's invariant, on the error path
/// just as on the successful one.
pub proof fn lemma_scan_keeps_inv(channels: Seq<ChannelModel>, frames: Seq<Frame>, acc: Seq<Frame>)
    requires
        channels.len() <= 255,
        forall|ch: int| 0 <= ch < channels.len() ==> channel_inv(#[trigger] channels[ch], ch),
    ensures
        channels_of(scan(channels, frames, acc)).len() == channels.len(),
        forall|ch: int|
            0 <= ch < channels.len() ==> channel_inv(
                #[trigger] channels_of(scan(channels, frames, acc))[ch],
                ch,
            ),
    decreases frames.len(),
{
    if frames.len() > 0 {
        let f = frames[0];
        match f.ordered {
            Option::None => {
                lemma_scan_keeps_inv(channels, frames.skip(1), acc.push(f));
            },
            Option::Some(a) => {
                if (a.channel as int) < channels.len() {
                    let m = channels[a.channel as int];
                    let sr = channel_step(m, f, a.frame_index);
                    lemma_channel_step_releases(m, f, a.frame_index, a.channel);
                    let channels2 = channels.update(a.channel as int, sr.0);
                    assert forall|ch: int|
                        0 <= ch < channels2.len() implies channel_inv(
                        #[trigger] channels2[ch],
                        ch,
                    ) by {
                        if ch != a.channel as int {
                            assert(channels2[ch] == channels[ch]);
                        }
                    }
                    lemma_scan_keeps_inv(channels2, frames.skip(1), acc + sr.1);
                }
            },
        }
    }
}

/// Scan a succession of frame batches through the channel states, one
/// per pull, collecting everything released — what the transform does
/// over successive demands. `None` when some batch trips the
/// out-of-range-channel error.
pub open spec fn scan_run(channels: Seq<ChannelModel>, batches: Seq<Seq<Frame>>) -> Option<
    (Seq<ChannelModel>, Seq<Frame>),
>
    decreases batches.len(),
{
    if batches.len() == 0 {
        Some((channels, Seq::<Frame>::empty()))
    } else {
        match scan(channels, batches[0], Seq::<Frame>::empty()) {
            ScanOutcome::Released { channels: chs2, out } => match scan_run(
                chs2,
                batches.skip(1),
            ) {
                Some(r) => Some((r.0, out + r.1)),
                None => None,
            },
            ScanOutcome::BadChannel { .. } => None,
        }
    }
}

/// The channel-`c` frames a succession of batches carries, in arrival
/// order.
pub open spec fn run_projection(batches: Seq<Seq<Frame>>, c: u8) -> Seq<Frame>
    decreases batches.len(),
{
    if batches.len() == 0 {
        Seq::<Frame>::empty()
    } else {
        frames_on_channel(batches[0], c) + run_projection(batches.skip(1), c)
    }
}

/// Every frame of a channel projection names that channel.
pub proof fn lemma_projection_names(s: Seq<Frame>, c: u8)
    ensures
        forall|j: int|
            0 <= j < frames_on_channel(s, c).len() ==> names_channel(
                #[trigger] frames_on_channel(s, c)[j],
                c,
            ),
    decreases s.len(),
{
    if s.len() > 0 {
        lemma_projection_names(s.skip(1), c);
        let proj = frames_on_channel(s, c);
        let rest = frames_on_channel(s.skip(1), c);
        if names_channel(s[0], c) {
            assert forall|j: int| 0 <= j < proj.len() implies names_channel(
                #[trigger] proj[j],
                c,
            ) by {
                if j == 0 {
                    assert(proj[0] == s[0]);
                } else {
                    assert(proj[j] == rest[j - 1]);
                }
            }
        } else {
            assert forall|j: int| 0 <= j < proj.len() implies names_channel(
                #[trigger] proj[j],
                c,
            ) by {
                assert(proj[j] == rest[j]);
            }
        }
    }
}

/// Every frame of a run projection names the projected channel.
pub proof fn lemma_run_projection_names(batches: Seq<Seq<Frame>>, c: u8)
    ensures
        forall|j: int|
            0 <= j < run_projection(batches, c).len() ==> names_channel(
                #[trigger] run_projection(batches, c)[j],
                c,
            ),
    decreases batches.len(),
{
    if batches.len() > 0 {
        lemma_projection_names(batches[0], c);
        lemma_run_projection_names(batches.skip(1), c);
        let head = frames_on_channel(batches[0], c);
        assert forall|j: int|
            0 <= j < run_projection(batches, c).len() implies names_channel(
            #[trigger] run_projection(batches, c)[j],
            c,
        ) by {
            if j < head.len() {
                assert(run_projection(batches, c)[j] == head[j]);
            } else {
                assert(run_projection(batches, c)[j] == run_projection(batches.skip(1), c)[j
                    - head.len()]);
            }
        }
    }
}

/// A whole run, watched from one channel: when no batch errors, channel
/// `c` ends where feeding it the run's channel-`c` projection leaves it,
/// and the run releases on channel `c` exactly what that feed releases.
pub proof fn lemma_run_projects_to_channel(
    channels: Seq<ChannelModel>,
    batches: Seq<Seq<Frame>>,
    c: u8,
)
    requires
        channels.len() <= 255,
        forall|ch: int| 0 <= ch < channels.len() ==> channel_inv(#[trigger] channels[ch], ch),
        (c as int) < channels.len(),
    ensures
        (scan_run(channels, batches) matches Some(r) ==> ({
            let fd = channel_feed(channels[c as int], run_projection(batches, c));
            &&& r.0.len() == channels.len()
            &&& r.0[c as int] == fd.0
            &&& frames_on_channel(r.1, c) == fd.1
        })),
    decreases batches.len(),
{
    if batches.len() == 0 {
        assert(frames_on_channel(Seq::<Frame>::empty(), c) == Seq::<Frame>::empty());
    } else {
        match scan(channels, batches[0], Seq::<Frame>::empty()) {
            ScanOutcome::Released { channels: chs2, out } => {
                lemma_scan_keeps_inv(channels, batches[0], Seq::<Frame>::empty());
                lemma_scan_projects_to_channel(channels, batches[0], Seq::<Frame>::empty(), c);
                assert(frames_on_channel(Seq::<Frame>::empty(), c) == Seq::<Frame>::empty());
                let fd0 = channel_feed(channels[c as int], frames_on_channel(batches[0], c));
                assert(frames_on_channel(out, c) =~= fd0.1);
                lemma_run_projects_to_channel(chs2, batches.skip(1), c);
                match scan_run(chs2, batches.skip(1)) {
                    Some(rr) => {
                        lemma_on_channel_add(out, rr.1, c);
                        lemma_channel_feed_append(
                            channels[c as int],
                            frames_on_channel(batches[0], c),
                            run_projection(batches.skip(1), c),
                        );
                    },
                    None => {},
                }
            },
            ScanOutcome::BadChannel { .. } => {},
        }
    }
}

/// In-order delivery through the whole transform: start a fresh engine
/// with `mc` channels and pull any succession of batches that scans
/// without error. If, on channel `c`, those batches carried frames whose
/// sequence indices cover `0..n` exactly once — in any arrival order,
/// split across the batches in any way — then the frames the transform
/// released on channel `c`, in release order, carry exactly the indices
/// `0, 1, …, n-1`, and the channel holds nothing back.
pub proof fn lemma_transform_in_order_delivery(
    mc: int,
    batches: Seq<Seq<Frame>>,
    c: u8,
    n: int,
)
    requires
        0 < mc <= 255,
        (c as int) < mc,
        0 <= n <= 0x1_0000_0000,
        forall|i: int, j: int|
            0 <= i < j < run_projection(batches, c).len() ==> (#[trigger] run_projection(
                batches,
                c,
            )[i]).ordered->Some_0.frame_index != (#[trigger] run_projection(
                batches,
                c,
            )[j]).ordered->Some_0.frame_index,
        arrival_index_set(run_projection(batches, c)) == set_int_range(0, n),
    ensures
        (scan_run(Seq::new(mc as nat, |i: int| channel_init()), batches) matches Some(r) ==> ({
            let released = frames_on_channel(r.1, c);
            &&& r.0[c as int].next_expected == n
            &&& forall|k: u32| !(#[trigger] r.0[c as int].pending.contains_key(k))
            &&& released.len() == n
            &&& forall|j: int|
                0 <= j < n ==> (#[trigger] released[j]).ordered == Some(
                    OrderAnnotation { frame_index: j as u32, channel: c },
                )
        })),
{
    let fresh = Seq::new(mc as nat, |i: int| channel_init());
    assert forall|ch: int| 0 <= ch < fresh.len() implies channel_inv(
        #[trigger] fresh[ch],
        ch,
    ) by {
        assert(fresh[ch] == channel_init());
        assert(Map::<u32, Frame>::empty().dom() =~= Set::<u32>::empty());
    }
    lemma_run_projects_to_channel(fresh, batches, c);
    lemma_run_projection_names(batches, c);
    let proj = run_projection(batches, c);
    assert forall|i: int| 0 <= i < proj.len() implies ((#[trigger] proj[i]).ordered is Some
        && proj[i].ordered->Some_0.channel == c) by {
        assert(names_channel(proj[i], c));
    }
    lemma_in_order_delivery(proj, c, n);
}

/// Feeding a channel two runs of arrivals one after the other is the
/// same as feeding their concatenation: the batching of the arrival
/// stream does not matter.
pub proof fn lemma_channel_feed_append(m: ChannelModel, a: Seq<Frame>, b: Seq<Frame>)
    ensures
        ({
            let r1 = channel_feed(m, a);
            let r2 = channel_feed(r1.0, b);
            let r = channel_feed(m, a + b);
            r.0 == r2.0 && r.1 == r1.1 + r2.1
        }),
    decreases a.len(),
{
    let r1 = channel_feed(m, a);
    let r2 = channel_feed(r1.0, b);
    let r = channel_feed(m, a + b);
    if a.len() == 0 {
        assert(a + b =~= b);
        assert(r1.1 + r2.1 =~= r2.1);
    } else {
        assert((a + b).skip(1) =~= a.skip(1) + b);
        assert((a + b)[0] == a[0]);
        match a[0].ordered {
            Option::Some(an) => {
                let sr = channel_step(m, a[0], an.frame_index);
                lemma_channel_feed_append(sr.0, a.skip(1), b);
                let t1 = channel_feed(sr.0, a.skip(1));
                let t2 = channel_feed(t1.0, b);
                assert(sr.1 + (t1.1 + t2.1) =~= (sr.1 + t1.1) + t2.1);
            },
            Option::None => {
                lemma_channel_feed_append(m, a.skip(1), b);
            },
        }
    }
}

/// Dropping the first arrival removes exactly its index from the set the
/// arrivals carry.
proof fn lemma_index_set_cons(arrivals: Seq<Frame>)
    requires
        arrivals.len() > 0,
        arrivals[0].ordered is Some,
    ensures
        arrival_index_set(arrivals) == arrival_index_set(arrivals.skip(1)).insert(
            arrivals[0].ordered->Some_0.frame_index as int,
        ),
{
    let rest = arrivals.skip(1);
    let idx = arrivals[0].ordered->Some_0.frame_index as int;
    assert forall|x: int|
        arrival_index_set(arrivals).contains(x) implies arrival_index_set(rest).insert(
        idx,
    ).contains(x) by {
        let i = choose|i: int|
            0 <= i < arrivals.len() && ((#[trigger] arrivals[i]).ordered->Some_0.frame_index
                as int) == x;
        if i > 0 {
            assert(rest[i - 1] == arrivals[i]);
        }
    }
    assert forall|x: int|
        arrival_index_set(rest).insert(idx).contains(x) implies arrival_index_set(
        arrivals,
    ).contains(x) by {
        if x != idx {
            let j = choose|j: int|
                0 <= j < rest.len() && ((#[trigger] rest[j]).ordered->Some_0.frame_index as int)
                    == x;
            assert(arrivals[j + 1] == rest[j]);
        }
    }
    assert(arrival_index_set(arrivals) =~= arrival_index_set(rest).insert(idx));
}

/// The inductive heart of in-order delivery: feeding a well-formed
/// channel any run of distinct, not-yet-seen indices on its own channel
/// preserves the invariant, only advances the channel, releases exactly
/// the indices between the old and the new `next_expected`, in strictly
/// increasing order, and accounts for exactly the fed indices.
proof fn lemma_channel_feed_accounts(m: ChannelModel, arrivals: Seq<Frame>, c: u8)
    requires
        channel_inv(m, c as int),
        forall|i: int|
            0 <= i < arrivals.len() ==> ((#[trigger] arrivals[i]).ordered is Some
                && arrivals[i].ordered->Some_0.channel == c),
        forall|i: int, j: int|
            0 <= i < j < arrivals.len() ==> (#[trigger] arrivals[i]).ordered->Some_0.frame_index
                != (#[trigger] arrivals[j]).ordered->Some_0.frame_index,
        forall|i: int|
            0 <= i < arrivals.len() ==> !seen(m).contains(
                (#[trigger] arrivals[i]).ordered->Some_0.frame_index as int,
            ),
    ensures
        ({
            let r = channel_feed(m, arrivals);
            &&& channel_inv(r.0, c as int)
            &&& r.0.next_expected >= m.next_expected
            &&& r.1.len() == r.0.next_expected - m.next_expected
            &&& forall|j: int|
                0 <= j < r.1.len() ==> (#[trigger] r.1[j]).ordered == Some(
                    OrderAnnotation {
                        frame_index: (m.next_expected + j) as u32,
                        channel: c,
                    },
                )
            &&& seen(r.0) == seen(m).union(arrival_index_set(arrivals))
        }),
    decreases arrivals.len(),
{
    let r = channel_feed(m, arrivals);
    if arrivals.len() == 0 {
        assert(seen(m).union(arrival_index_set(arrivals)) =~= seen(m));
    } else {
        let f = arrivals[0];
        assert(f.ordered is Some && f.ordered->Some_0.channel == c);
        let a = f.ordered->Some_0;
        let idx = a.frame_index;
        let rest_arr = arrivals.skip(1);
        let sr = channel_step(m, f, idx);
        assert(!seen(m).contains(idx as int));
        lemma_index_set_cons(arrivals);
        if (idx as int) < m.next_expected {
            assert(seen(m).contains(idx as int));
            assert(false);
        } else if (idx as int) > m.next_expected {
            let m2 = sr.0;
            assert(a == OrderAnnotation { frame_index: idx, channel: c });
            assert(channel_inv(m2, c as int));
            assert(seen(m2) =~= seen(m).insert(idx as int));
            lemma_channel_feed_accounts(m2, rest_arr, c);
            let rest = channel_feed(m2, rest_arr);
            assert(r.1 =~= rest.1);
            assert(seen(r.0) =~= seen(m).union(arrival_index_set(arrivals)));
        } else {
            let g0 = ChannelModel { next_expected: m.next_expected + 1, pending: m.pending };
            let acc0 = Seq::<Frame>::empty().push(f);
            lemma_drain_keeps_inv(g0, acc0, c as int);
            let d = drain(g0, acc0);
            assert(sr == d);
            assert(seen(d.0) =~= seen(m).insert(idx as int)) by {
                assert forall|x: int| seen(d.0).contains(x) implies seen(m).insert(
                    idx as int,
                ).contains(x) by {
                    if x < d.0.next_expected {
                        if x > m.next_expected {
                            assert(g0.pending.contains_key(x as u32));
                        }
                    }
                }
            }
            lemma_channel_feed_accounts(d.0, rest_arr, c);
            let rest = channel_feed(d.0, rest_arr);
            assert(r.0 == rest.0);
            assert(r.1 == d.1 + rest.1);
            assert forall|j: int|
                0 <= j < r.1.len() implies (#[trigger] r.1[j]).ordered == Some(
                OrderAnnotation { frame_index: (m.next_expected + j) as u32, channel: c },
            ) by {
                if j < d.1.len() {
                    assert(r.1[j] == d.1[j]);
                    if j == 0 {
                        assert(d.1[0] == acc0[0]);
                    }
                } else {
                    assert(r.1[j] == rest.1[j - d.1.len()]);
                }
            }
            assert(seen(r.0) =~= seen(m).union(arrival_index_set(arrivals)));
        }
    }
}

/// In-order delivery: a fresh channel fed any permutation of frames
/// covering the sequence indices `0..n` exactly once — in whatever
/// arrival order, however batched — releases all `n` frames, in strictly
/// increasing index order `0, 1, …, n-1`, and holds nothing back.
pub proof fn lemma_in_order_delivery(arrivals: Seq<Frame>, c: u8, n: int)
    requires
        0 <= n <= 0x1_0000_0000,
        forall|i: int|
            0 <= i < arrivals.len() ==> ((#[trigger] arrivals[i]).ordered is Some
                && arrivals[i].ordered->Some_0.channel == c),
        forall|i: int, j: int|
            0 <= i < j < arrivals.len() ==> (#[trigger] arrivals[i]).ordered->Some_0.frame_index
                != (#[trigger] arrivals[j]).ordered->Some_0.frame_index,
        arrival_index_set(arrivals) == set_int_range(0, n),
    ensures
        ({
            let r = channel_feed(channel_init(), arrivals);
            &&& r.0.next_expected == n
            &&& forall|k: u32| !(#[trigger] r.0.pending.contains_key(k))
            &&& r.1.len() == n
            &&& forall|j: int|
                0 <= j < n ==> (#[trigger] r.1[j]).ordered == Some(
                    OrderAnnotation { frame_index: j as u32, channel: c },
                )
        }),
{
    let m0 = channel_init();
    assert(channel_inv(m0, c as int)) by {
        assert(Map::<u32, Frame>::empty().dom() =~= Set::<u32>::empty());
    }
    assert forall|i: int|
        0 <= i < arrivals.len() implies !seen(m0).contains(
        (#[trigger] arrivals[i]).ordered->Some_0.frame_index as int,
    ) by {}
    lemma_channel_feed_accounts(m0, arrivals, c);
    let r = channel_feed(m0, arrivals);
    assert(seen(r.0) =~= set_int_range(0, n)) by {
        assert(seen(r.0) == seen(m0).union(arrival_index_set(arrivals)));
        assert(seen(m0).union(set_int_range(0, n)) =~= set_int_range(0, n));
    }
    if r.0.next_expected < n {
        assert(set_int_range(0, n).contains(r.0.next_expected));
        assert(seen(r.0).contains(r.0.next_expected));
        assert(r.0.pending.contains_key(r.0.next_expected as u32));
        assert(false);
    }
    if r.0.next_expected > n {
        assert(seen(r.0).contains(n));
        assert(false);
    }
    assert forall|k: u32| !(#[trigger] r.0.pending.contains_key(k)) by {
        if r.0.pending.contains_key(k) {
            assert(seen(r.0).contains(k as int));
        }
    }
}

} // verus!
