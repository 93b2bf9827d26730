use vstd::prelude::*;

verus! {

/// The start-of-frame word 0xBAADDAAD, in the order its bytes travel (little endian).
const PICC_TLM_PRESYNC: [u8; 4] = [0xAD, 0xDA, 0xAD, 0xBA];

/// The end-of-frame word 0xDEADBEEF, in the order its bytes travel (little endian).
const PICC_TLM_POSTSYNC: [u8; 4] = [0xEF, 0xBE, 0xAD, 0xDE];

/// Room reserved up front for the bytes a frame buffers.
const FRAME_RESERVE: usize = 65536;

/// One telemetry packet as cut from the stream.
pub type Packet = Vec<u8>;

/// The start-of-frame marker begins at index `i` of `s`.
pub open spec fn presync_at(s: Seq<u8>, i: int) -> bool {
    &&& 0 <= i
    &&& i + 4 <= s.len()
    &&& s[i] == 0xADu8
    &&& s[i + 1] == 0xDAu8
    &&& s[i + 2] == 0xADu8
    &&& s[i + 3] == 0xBAu8
}

/// The end-of-frame marker begins at index `i` of `s`.
pub open spec fn postsync_at(s: Seq<u8>, i: int) -> bool {
    &&& 0 <= i
    &&& i + 4 <= s.len()
    &&& s[i] == 0xEFu8
    &&& s[i + 1] == 0xBEu8
    &&& s[i + 2] == 0xADu8
    &&& s[i + 3] == 0xDEu8
}

/// Either marker begins at index `i` of `s`.
pub open spec fn marker_at(s: Seq<u8>, i: int) -> bool {
    presync_at(s, i) || postsync_at(s, i)
}

/// `i` is the first index of `s` where a start-of-frame marker begins.
pub open spec fn is_first_presync(s: Seq<u8>, i: int) -> bool {
    &&& presync_at(s, i)
    &&& forall|j: int| 0 <= j < i ==> !presync_at(s, j)
}

/// The first index of `s` where a start-of-frame marker begins.
pub open spec fn first_presync(s: Seq<u8>) -> int {
    choose|i: int| is_first_presync(s, i)
}

/// `i` is the last index of `s`, not before index 4, where a marker of either kind begins.
pub open spec fn is_last_marker(s: Seq<u8>, i: int) -> bool {
    &&& 4 <= i
    &&& marker_at(s, i)
    &&& forall|j: int| i < j ==> !marker_at(s, j)
}

/// The last index of `s`, not before index 4, where a marker of either kind begins.
pub open spec fn last_marker(s: Seq<u8>) -> int {
    choose|i: int| is_last_marker(s, i)
}

/// What is left of a buffer once it has been cut into packets: the result
/// handed back, the bytes still buffered, and whether those bytes open with a
/// start-of-frame marker that is still waiting for its packet's end.
pub struct Drained {
    pub result: Result<Seq<Seq<u8>>, Seq<u8>>,
    pub rest: Seq<u8>,
    pub synced: bool,
}

/// Cuts the buffered bytes `s` into packets, after the packets already cut.
///
/// Out of sync (`synced` false), everything before the first start-of-frame
/// marker is dropped and the buffer becomes synced; with no start marker at
/// all, nothing changes.  In sync, the buffer opens with a start marker and the
/// last marker after it decides: an end-of-frame marker closes a packet running
/// through it, and cutting goes on out of sync; a start marker makes everything
/// before it a malformed packet, which ends the cutting with an error (the
/// buffer stays synced unless an end marker stood somewhere between).  With no
/// marker after the opening one, the buffer waits for more bytes.
pub open spec fn drain_frames(s: Seq<u8>, synced: bool, packets: Seq<Seq<u8>>) -> Drained
    decreases s.len(), (if synced { 0int } else { 1int }),
{
    if !synced {
        if exists|i: int| is_first_presync(s, i) {
            drain_frames(s.skip(first_presync(s)), true, packets)
        } else {
            Drained { result: Ok(packets), rest: s, synced: false }
        }
    } else if exists|i: int| is_last_marker(s, i) {
        let end = last_marker(s);
        if postsync_at(s, end) {
            drain_frames(s.skip(end + 4), false, packets.push(s.take(end + 4)))
        } else {
            Drained {
                result: Err(s.take(end)),
                rest: s.skip(end),
                synced: !exists|j: int| 4 <= j < end && postsync_at(s, j),
            }
        }
    } else {
        Drained { result: Ok(packets), rest: s, synced: true }
    }
}

/// `p` runs from a start-of-frame marker to an end-of-frame marker.
pub open spec fn framed_packet(p: Seq<u8>) -> bool {
    presync_at(p, 0) && postsync_at(p, p.len() - 4)
}

/// No complete packet is left in the buffer: out of sync it holds no start
/// marker; in sync no marker follows the opening one.
pub open spec fn settled(s: Seq<u8>, synced: bool) -> bool {
    if synced {
        forall|i: int| 4 <= i ==> !marker_at(s, i)
    } else {
        forall|i: int| !presync_at(s, i)
    }
}

/// `t` is a suffix of `s`.
pub open spec fn is_suffix(t: Seq<u8>, s: Seq<u8>) -> bool {
    t.len() <= s.len() && t == s.skip(s.len() - t.len())
}

/// What holds of every cut of a well-framed buffer `s` after the packets
/// `packets`: the state stays well framed and what is kept is a suffix of
/// `s`; on success at most one packet is added, every packet is framed and
/// nothing complete is left; a malformed piece opens with a start marker and
/// lies in the stream right before the bytes kept, which open with a start
/// marker too.
pub open spec fn drain_laws(s: Seq<u8>, packets: Seq<Seq<u8>>, d: Drained) -> bool {
    &&& well_framed(d.rest, d.synced)
    &&& is_suffix(d.rest, s)
    &&& match d.result {
        Ok(ps) => {
            &&& settled(d.rest, d.synced)
            &&& packets.len() <= ps.len() <= packets.len() + 1
            &&& ps.take(packets.len() as int) == packets
            &&& forall|k: int| 0 <= k < ps.len() ==> framed_packet(#[trigger] ps[k])
        },
        Err(bad) => {
            &&& presync_at(bad, 0)
            &&& presync_at(d.rest, 0)
            &&& is_suffix(bad + d.rest, s)
        },
    }
}

/// A start marker anywhere means there is a first one.
proof fn lemma_first_presync_exists(s: Seq<u8>, i: int)
    requires
        presync_at(s, i),
    ensures
        exists|k: int| is_first_presync(s, k),
    decreases i,
{
    if forall|j: int| 0 <= j < i ==> !presync_at(s, j) {
        assert(is_first_presync(s, i));
    } else {
        let j = choose|j: int| 0 <= j < i && presync_at(s, j);
        lemma_first_presync_exists(s, j);
    }
}

/// A marker at or after index 4 means there is a last one.
proof fn lemma_last_marker_exists(s: Seq<u8>, i: int)
    requires
        4 <= i,
        marker_at(s, i),
    ensures
        exists|k: int| is_last_marker(s, k),
    decreases s.len() - i,
{
    if forall|j: int| i < j ==> !marker_at(s, j) {
        assert(is_last_marker(s, i));
    } else {
        let j = choose|j: int| i < j && marker_at(s, j);
        lemma_last_marker_exists(s, j);
    }
}

/// Cutting a well-framed buffer into packets keeps the laws of [`drain_laws`]:
/// the packets cut are framed, the bytes kept are a suffix of the buffer and
/// hold no complete packet after a success, and a malformed piece opens with
/// a start marker and is followed in the stream by the bytes kept.
pub proof fn lemma_drain_laws(s: Seq<u8>, synced: bool, packets: Seq<Seq<u8>>)
    requires
        well_framed(s, synced),
        forall|k: int| 0 <= k < packets.len() ==> framed_packet(#[trigger] packets[k]),
    ensures
        drain_laws(s, packets, drain_frames(s, synced, packets)),
    decreases s.len(), (if synced { 0int } else { 1int }),
{
    let d = drain_frames(s, synced, packets);
    if !synced {
        if exists|i: int| is_first_presync(s, i) {
            let p = first_presync(s);
            let t = s.skip(p);
            assert(presync_at(t, 0));
            lemma_drain_laws(t, true, packets);
            assert(d == drain_frames(t, true, packets));
            assert(packets.take(packets.len() as int) =~= packets);
            assert(d.rest =~= s.skip(s.len() - d.rest.len()));
            if let Err(bad) = d.result {
                assert(bad + d.rest =~= s.skip(s.len() - (bad + d.rest).len()));
            }
        } else {
            assert forall|i: int| !presync_at(s, i) by {
                if presync_at(s, i) {
                    lemma_first_presync_exists(s, i);
                }
            }
            assert(d.rest =~= s.skip(0));
            assert(packets.take(packets.len() as int) =~= packets);
        }
    } else if exists|i: int| is_last_marker(s, i) {
        let end = last_marker(s);
        if postsync_at(s, end) {
            let p = s.take(end + 4);
            let t = s.skip(end + 4);
            assert(framed_packet(p));
            let more = packets.push(p);
            assert forall|k: int| 0 <= k < more.len() implies framed_packet(#[trigger] more[k]) by {
                if k < packets.len() {
                    assert(more[k] == packets[k]);
                }
            }
            assert forall|i: int| !presync_at(t, i) by {
                if presync_at(t, i) {
                    assert(marker_at(s, end + 4 + i));
                }
            }
            assert(!exists|i: int| is_first_presync(t, i));
            lemma_drain_laws(t, false, more);
            assert(d == drain_frames(t, false, more));
            assert(more.take(packets.len() as int) =~= packets);
            assert(d.rest =~= s.skip(s.len() - d.rest.len()));
            if let Err(bad) = d.result {
                assert(bad + d.rest =~= s.skip(s.len() - (bad + d.rest).len()));
            }
        } else {
            let bad = s.take(end);
            assert(presync_at(bad, 0));
            assert(presync_at(d.rest, 0));
            assert(bad + d.rest =~= s.skip(0));
            assert(d.rest =~= s.skip(s.len() - d.rest.len()));
        }
    } else {
        assert forall|i: int| 4 <= i implies !marker_at(s, i) by {
            if marker_at(s, i) {
                lemma_last_marker_exists(s, i);
            }
        }
        assert(d.rest =~= s.skip(0));
        assert(packets.take(packets.len() as int) =~= packets);
    }
}

/// The bytes a cut hands out: the packet cut, if any, or the malformed piece.
pub open spec fn handed_out(result: Result<Seq<Seq<u8>>, Seq<u8>>) -> Seq<u8> {
    match result {
        Ok(ps) => if ps.len() == 0 {
            Seq::empty()
        } else {
            ps[0]
        },
        Err(bad) => bad,
    }
}

/// What a cut of a buffer that opens with a start marker gives, in terms of
/// the buffer `t` alone: the bytes handed out followed by the bytes kept are
/// the whole buffer; a packet cut leaves no marker of either kind behind it;
/// a malformed piece is followed by a start marker and nothing after it.
proof fn lemma_synced_cut(t: Seq<u8>)
    requires
        presync_at(t, 0),
    ensures
        ({
            let d = drain_frames(t, true, Seq::empty());
            &&& handed_out(d.result) + d.rest == t
            &&& match d.result {
                Ok(ps) => {
                    &&& ps.len() <= 1
                    &&& ps.len() == 1 ==> forall|i: int| !marker_at(d.rest, i)
                },
                Err(bad) => {
                    &&& presync_at(bad, 0)
                    &&& presync_at(d.rest, 0)
                    &&& forall|i: int| 1 <= i ==> !marker_at(d.rest, i)
                },
            }
        }),
{
    let d = drain_frames(t, true, Seq::empty());
    if exists|i: int| is_last_marker(t, i) {
        let e = last_marker(t);
        if postsync_at(t, e) {
            let u = t.skip(e + 4);
            let more = Seq::<Seq<u8>>::empty().push(t.take(e + 4));
            assert forall|i: int| !marker_at(u, i) by {
                if marker_at(u, i) {
                    assert(marker_at(t, e + 4 + i));
                }
            }
            assert forall|i: int| !presync_at(u, i) by {
                if presync_at(u, i) {
                    assert(marker_at(u, i));
                }
            }
            assert(!exists|i: int| is_first_presync(u, i));
            assert(d == drain_frames(u, false, more));
            assert(drain_frames(u, false, more) == Drained { result: Ok(more), rest: u, synced: false });
            assert(handed_out(d.result) == t.take(e + 4));
            assert(t.take(e + 4) + u =~= t);
        } else {
            let r = t.skip(e);
            assert forall|i: int| 1 <= i implies !marker_at(r, i) by {
                if marker_at(r, i) {
                    assert(marker_at(t, e + i));
                }
            }
            assert(t.take(e) + r =~= t);
            assert(presync_at(t.take(e), 0));
        }
    } else {
        assert(Seq::<u8>::empty() + t =~= t);
    }
}

/// The cut of a buffer that is out of sync but holds a start marker: the
/// bytes before the first start marker are dropped and the rest is cut as a
/// synced buffer.
proof fn lemma_unsynced_cut(s: Seq<u8>)
    requires
        exists|i: int| is_first_presync(s, i),
    ensures
        ({
            let d = drain_frames(s, false, Seq::empty());
            let kept = handed_out(d.result) + d.rest;
            &&& kept == s.skip(first_presync(s))
            &&& 0 <= first_presync(s) <= s.len()
            &&& forall|i: int| !presync_at(s.take(first_presync(s)), i)
            &&& d == drain_frames(s.skip(first_presync(s)), true, Seq::empty())
        }),
{
    let p = first_presync(s);
    let t = s.skip(p);
    assert(presync_at(t, 0));
    lemma_synced_cut(t);
    assert forall|i: int| !presync_at(s.take(p), i) by {
        if presync_at(s.take(p), i) {
            assert(presync_at(s, i));
        }
    }
}

/// The cut `d` of the buffer `s` keeps the stream in order (see
/// [`lemma_cut_keeps_stream`]).
pub open spec fn keeps_stream(s: Seq<u8>, synced: bool, d: Drained) -> bool {
    let kept = handed_out(d.result) + d.rest;
    let dropped = s.take(s.len() - kept.len());
    &&& is_suffix(kept, s)
    &&& forall|i: int| !presync_at(dropped, i)
    &&& synced ==> dropped.len() == 0
    &&& match d.result {
        Ok(ps) => {
            &&& ps.len() <= 1
            &&& ps.len() == 1 ==> forall|i: int| !marker_at(d.rest, i)
        },
        Err(bad) => {
            &&& presync_at(bad, 0)
            &&& presync_at(d.rest, 0)
            &&& forall|i: int| 1 <= i ==> !marker_at(d.rest, i)
        },
    }
}

/// A push keeps the stream in order and drops only bytes that cannot belong
/// to a packet.  With `s` the bytes buffered before the push followed by the
/// bytes pushed: what the push hands out (the packet cut or the malformed
/// piece) followed by what it keeps is the tail of `s`, and the bytes before
/// that tail hold no start marker; a buffer that was synced loses nothing.
/// At most one packet is cut, and nothing that could start or end another is
/// left behind it; a malformed piece is followed by a start marker and by no
/// other marker.
pub proof fn lemma_cut_keeps_stream(s: Seq<u8>, synced: bool)
    requires
        well_framed(s, synced),
    ensures
        keeps_stream(s, synced, drain_frames(s, synced, Seq::empty())),
{
    if synced {
        lemma_synced_cut(s);
        assert(s.skip(0) =~= s);
    } else if exists|i: int| is_first_presync(s, i) {
        lemma_unsynced_cut(s);
        let p = first_presync(s);
        let t = s.skip(p);
        lemma_synced_cut(t);
        let d = drain_frames(s, synced, Seq::empty());
        let kept = handed_out(d.result) + d.rest;
        assert(kept.len() == s.len() - p);
        assert(s.take(s.len() - kept.len()) == s.take(p));
        assert(s.skip(s.len() - kept.len()) == t);
    } else {
        let d = drain_frames(s, synced, Seq::empty());
        assert(d == Drained { result: Ok(Seq::<Seq<u8>>::empty()), rest: s, synced: false });
        assert(handed_out(d.result) + d.rest =~= s);
        assert(s.skip(0) =~= s);
        assert(s.take(0) =~= Seq::<u8>::empty());
    }
}

/// After a push that succeeded, pushing no bytes emits no packet and leaves
/// the buffer and its state as they are.
pub proof fn lemma_push_nothing_after_success(s: Seq<u8>, synced: bool, data: Seq<u8>)
    requires
        well_framed(s, synced),
        drain_frames(s + data, synced, Seq::empty()).result is Ok,
    ensures
        ({
            let d = drain_frames(s + data, synced, Seq::empty());
            drain_frames(d.rest + Seq::<u8>::empty(), d.synced, Seq::empty()) == Drained {
                result: Ok(Seq::<Seq<u8>>::empty()),
                rest: d.rest,
                synced: d.synced,
            }
        }),
{
    let d = drain_frames(s + data, synced, Seq::empty());
    let sd = s + data;
    if synced {
        assert(sd[0] == s[0] && sd[1] == s[1] && sd[2] == s[2] && sd[3] == s[3]);
    }
    lemma_drain_laws(sd, synced, Seq::empty());
    let r = d.rest + Seq::<u8>::empty();
    assert(r =~= d.rest);
    if d.synced {
        assert(!exists|i: int| is_last_marker(r, i));
    } else {
        assert(!exists|i: int| is_first_presync(r, i));
    }
}

/// A synced buffer opens with a start-of-frame marker.
pub open spec fn well_framed(s: Seq<u8>, synced: bool) -> bool {
    synced ==> presync_at(s, 0)
}

/// The abstract state of a [`PiccFrame`]: the bytes it buffers, and whether
/// they open with a start-of-frame marker whose packet is still incomplete.
pub struct FrameState {
    pub bytes: Seq<u8>,
    pub synced: bool,
}

#[derive(Debug, Clone, Copy, PartialEq, Eq)]
enum PiccFrameState {
    Empty,
    Presync,
}

/// Reassembles telemetry packets, each running from a start-of-frame marker
/// to an end-of-frame marker, out of a byte stream that arrives in pieces.
pub struct PiccFrame {
    frame: Vec<u8>,
    state: PiccFrameState,
}

impl View for PiccFrame {
    type V = FrameState;

    closed spec fn view(&self) -> FrameState {
        FrameState { bytes: self.frame@, synced: self.state is Presync }
    }
}

impl PiccFrame {
    /// The buffered bytes agree with the state.
    #[verifier::type_invariant]
    spec fn wf(self) -> bool {
        well_framed(self.frame@, self.state is Presync)
    }
}

impl Default for PiccFrame {
    fn default() -> (r: Self)
        ensures
            r@.bytes == Seq::<u8>::empty(),
            !r@.synced,
    {
        PiccFrame { frame: Vec::with_capacity(FRAME_RESERVE), state: PiccFrameState::Empty }
    }
}

/// Whether the start-of-frame marker begins at index `i`.
fn presync_window(s: &Vec<u8>, i: usize) -> (r: bool)
    requires
        i + 4 <= s.len(),
    ensures
        r == presync_at(s@, i as int),
{
    s[i] == PICC_TLM_PRESYNC[0] && s[i + 1] == PICC_TLM_PRESYNC[1] && s[i + 2]
        == PICC_TLM_PRESYNC[2] && s[i + 3] == PICC_TLM_PRESYNC[3]
}

/// Whether the end-of-frame marker begins at index `i`.
fn postsync_window(s: &Vec<u8>, i: usize) -> (r: bool)
    requires
        i + 4 <= s.len(),
    ensures
        r == postsync_at(s@, i as int),
{
    s[i] == PICC_TLM_POSTSYNC[0] && s[i + 1] == PICC_TLM_POSTSYNC[1] && s[i + 2]
        == PICC_TLM_POSTSYNC[2] && s[i + 3] == PICC_TLM_POSTSYNC[3]
}

/// The first index where a start-of-frame marker begins, if there is one.
fn find_first_presync(s: &Vec<u8>) -> (r: Option<usize>)
    ensures
        match r {
            Some(i) => is_first_presync(s@, i as int),
            None => forall|i: int| !presync_at(s@, i),
        },
{
    let n = s.len();
    let mut i: usize = 0;
    while n >= 4 && i <= n - 4
        invariant
            n == s.len(),
            i <= n,
            forall|j: int| 0 <= j < i ==> !presync_at(s@, j),
        decreases n - i,
    {
        if presync_window(s, i) {
            return Some(i);
        }
        i += 1;
    }
    None
}

/// Walks the windows after the opening start marker, as the framing does, and
/// reports the last marker found (`Ok` with the end of the packet it closes
/// for an end marker, `Err` with its index for a start marker) and whether an
/// end marker was found anywhere.
fn last_marker_scan(s: &Vec<u8>) -> (r: (Option<Result<usize, usize>>, bool))
    requires
        4 <= s.len(),
    ensures
        r.1 <==> exists|j: int| 4 <= j && postsync_at(s@, j),
        match r.0 {
            None => forall|j: int| 4 <= j ==> !marker_at(s@, j),
            Some(Ok(end)) => 8 <= end && is_last_marker(s@, end - 4) && postsync_at(s@, end - 4),
            Some(Err(end)) => is_last_marker(s@, end as int) && presync_at(s@, end as int),
        },
{
    let n = s.len();
    let mut out: Option<Result<usize, usize>> = None;
    let mut seen_post = false;
    let mut pos: usize = 0;
    while n - pos >= 8
        invariant
            n == s.len(),
            4 <= n,
            pos <= n,
            seen_post <==> exists|j: int| 4 <= j < pos + 4 && postsync_at(s@, j),
            match out {
                None => forall|j: int| 4 <= j < pos + 4 ==> !marker_at(s@, j),
                Some(Ok(end)) => {
                    &&& 8 <= end < pos + 8
                    &&& postsync_at(s@, end - 4)
                    &&& forall|j: int| end - 4 < j < pos + 4 ==> !marker_at(s@, j)
                },
                Some(Err(end)) => {
                    &&& 4 <= end < pos + 4
                    &&& presync_at(s@, end as int)
                    &&& forall|j: int| end < j < pos + 4 ==> !marker_at(s@, j)
                },
            },
        decreases n - pos,
    {
        let i = pos + 4;
        if postsync_window(s, i) {
            out = Some(Ok(pos + 8));
            seen_post = true;
        } else if presync_window(s, i) {
            out = Some(Err(pos + 4));
        }
        pos += 1;
    }
    (out, seen_post)
}

/// Removes the first `n` bytes of `v` and returns them.
fn drain_front(v: &mut Vec<u8>, n: usize) -> (head: Vec<u8>)
    requires
        n <= old(v).len(),
    ensures
        head@ == old(v)@.take(n as int),
        final(v)@ == old(v)@.skip(n as int),
{
    let mut rest = v.split_off(n);
    std::mem::swap(v, &mut rest);
    rest
}

impl PiccFrame {
    /// Appends `data` to the buffered bytes and cuts out every packet that is
    /// now complete.  Returns the packets in stream order, or the malformed
    /// bytes that ran up to a second start-of-frame marker (the packets cut
    /// before it in the same call are then dropped).
    pub fn push(&mut self, data: &[u8]) -> (r: Result<Vec<Packet>, Packet>)
        ensures
            well_framed(old(self)@.bytes, old(self)@.synced),
            ({
                let d = drain_frames(old(self)@.bytes + data@, old(self)@.synced, Seq::empty());
                &&& final(self)@.bytes == d.rest
                &&& final(self)@.synced == d.synced
                &&& drain_laws(old(self)@.bytes + data@, Seq::empty(), d)
                &&& keeps_stream(old(self)@.bytes + data@, old(self)@.synced, d)
                &&& match r {
                    Ok(packets) => d.result == Ok::<Seq<Seq<u8>>, Seq<u8>>(packets.deep_view()),
                    Err(bad) => d.result == Err::<Seq<Seq<u8>>, Seq<u8>>(bad@),
                }
            }),
    {
        proof {
            use_type_invariant(&*self);
        }
        // Take the buffer and its state out of `self`, leaving an empty,
        // unsynced frame behind until the new ones are put back.
        let mut state = PiccFrameState::Empty;
        std::mem::swap(&mut state, &mut self.state);
        let mut frame: Vec<u8> = Vec::new();
        std::mem::swap(&mut frame, &mut self.frame);
        let ghost synced0 = state is Presync;
        assert(frame@ == old(self)@.bytes && synced0 == old(self)@.synced);

        frame.extend_from_slice(data);
        let ghost total = frame@;
        assert(total =~= old(self)@.bytes + data@);
        proof {
            if synced0 {
                assert(total[0] == old(self)@.bytes[0] && total[1] == old(self)@.bytes[1]);
                assert(total[2] == old(self)@.bytes[2] && total[3] == old(self)@.bytes[3]);
            }
            lemma_drain_laws(total, synced0, Seq::empty());
            lemma_cut_keeps_stream(total, synced0);
        }
        let mut output: Vec<Packet> = Vec::new();
        assert(output.deep_view() =~= Seq::<Seq<u8>>::empty());
        loop
            invariant
                total == old(self)@.bytes + data@,
                synced0 == old(self)@.synced,
                well_framed(old(self)@.bytes, old(self)@.synced),
                self.state is Empty,
                drain_laws(total, Seq::empty(), drain_frames(total, synced0, Seq::empty())),
                keeps_stream(total, synced0, drain_frames(total, synced0, Seq::empty())),
                well_framed(frame@, state is Presync),
                drain_frames(frame@, state is Presync, output.deep_view())
                    == drain_frames(total, synced0, Seq::empty()),
            decreases frame@.len(), (if state is Presync { 0int } else { 1int }),
        {
            match state {
                PiccFrameState::Empty => {
                    match find_first_presync(&frame) {
                        Some(pos) => {
                            let ghost s = frame@;
                            assert(first_presync(s) == pos as int);
                            state = PiccFrameState::Presync;
                            let _skipped = drain_front(&mut frame, pos);
                        },
                        None => {
                            assert(!exists|i: int| is_first_presync(frame@, i));
                            self.frame = frame;
                            self.state = state;
                            return Ok(output);
                        },
                    }
                },
                PiccFrameState::Presync => {
                    let ghost s = frame@;
                    let ghost before = output.deep_view();
                    let (found, seen_post) = last_marker_scan(&frame);
                    if seen_post {
                        state = PiccFrameState::Empty;
                    }
                    match found {
                        Some(Ok(end)) => {
                            assert(last_marker(s) == end - 4);
                            let packet = drain_front(&mut frame, end);
                            assert(packet.deep_view() =~= packet@);
                            output.push(packet);
                            assert(output.deep_view() =~= before.push(s.take(end as int)));
                        },
                        Some(Err(end)) => {
                            assert(last_marker(s) == end as int);
                            assert((exists|j: int| 4 <= j < end && postsync_at(s, j)) == seen_post) by {
                                if seen_post {
                                    let j = choose|j: int| 4 <= j && postsync_at(s, j);
                                    assert(marker_at(s, j));
                                }
                            }
                            let malformed = drain_front(&mut frame, end);
                            self.frame = frame;
                            self.state = state;
                            return Err(malformed);
                        },
                        None => {
                            assert(!seen_post) by {
                                if seen_post {
                                    let j = choose|j: int| 4 <= j && postsync_at(s, j);
                                    assert(marker_at(s, j));
                                }
                            }
                            assert(!exists|i: int| is_last_marker(s, i));
                            self.frame = frame;
                            self.state = state;
                            return Ok(output);
                        },
                    }
                },
            }
        }
    }
}

} // verus!
