use vstd::prelude::*;

verus! {

/// How many bytes a batch holds before it must be sent on.
pub const BATCH_CAPACITY: usize = 65536;

/// What one received datagram does to a batch `buf`: when the datagram would
/// overflow the batch, or the collection window has run out, the batch is
/// sent on and a new one starts with the datagram; otherwise the datagram is
/// appended.  Gives the batch sent, if any, and the batch kept.
pub open spec fn datagram_step(buf: Seq<u8>, data: Seq<u8>, window_elapsed: bool) -> (
    Option<Seq<u8>>,
    Seq<u8>,
) {
    if buf.len() + data.len() > BATCH_CAPACITY || window_elapsed {
        (Some(buf), data)
    } else {
        (None, buf + data)
    }
}

/// What a quiet spell (no datagram before the receive timeout) does to a
/// batch `buf`: a batch holding bytes is sent on and emptied; an empty one
/// is kept, and the listener gives up on the socket.
pub open spec fn quiet_step(buf: Seq<u8>) -> (Option<Seq<u8>>, Seq<u8>) {
    if buf.len() > 0 {
        (Some(buf), Seq::empty())
    } else {
        (None, buf)
    }
}

/// The bytes of a batch sent, or none when nothing was sent.
pub open spec fn sent_bytes(sent: Option<Seq<u8>>) -> Seq<u8> {
    match sent {
        Some(b) => b,
        None => Seq::empty(),
    }
}

/// One thing that happens to a listener: a datagram (with whether the
/// collection window had run out when it came), or a quiet spell.
pub enum Arrival {
    Datagram(Seq<u8>, bool),
    Quiet,
}

/// The payload an arrival brings.
pub open spec fn payload(a: Arrival) -> Seq<u8> {
    match a {
        Arrival::Datagram(d, _) => d,
        Arrival::Quiet => Seq::empty(),
    }
}

/// One step of a batch on an arrival.
pub open spec fn arrival_step(buf: Seq<u8>, a: Arrival) -> (Option<Seq<u8>>, Seq<u8>) {
    match a {
        Arrival::Datagram(d, elapsed) => datagram_step(buf, d, elapsed),
        Arrival::Quiet => quiet_step(buf),
    }
}

/// The batches sent on, in order, and the batch kept, after `arrivals` meet a
/// batch that starts as `buf`.
pub open spec fn run_batches(buf: Seq<u8>, arrivals: Seq<Arrival>) -> (Seq<Seq<u8>>, Seq<u8>)
    decreases arrivals.len(),
{
    if arrivals.len() == 0 {
        (Seq::empty(), buf)
    } else {
        let (sent, kept) = arrival_step(buf, arrivals[0]);
        let (later, last) = run_batches(kept, arrivals.drop_first());
        match sent {
            Some(b) => (seq![b] + later, last),
            None => (later, last),
        }
    }
}

/// All the bytes of a sequence of batches, in order.
pub open spec fn concat(batches: Seq<Seq<u8>>) -> Seq<u8>
    decreases batches.len(),
{
    if batches.len() == 0 {
        Seq::empty()
    } else {
        batches[0] + concat(batches.drop_first())
    }
}

/// All the payload bytes of a sequence of arrivals, in order.
pub open spec fn payloads(arrivals: Seq<Arrival>) -> Seq<u8>
    decreases arrivals.len(),
{
    if arrivals.len() == 0 {
        Seq::empty()
    } else {
        payload(arrivals[0]) + payloads(arrivals.drop_first())
    }
}

/// Every byte received is sent on exactly once and in order: the batches
/// sent, followed by the batch kept, are the starting batch followed by all
/// the datagrams received.  No batch sent or kept is larger than the
/// capacity, provided no datagram is.
pub proof fn lemma_every_byte_forwarded_once(buf: Seq<u8>, arrivals: Seq<Arrival>)
    requires
        buf.len() <= BATCH_CAPACITY,
        forall|k: int| 0 <= k < arrivals.len() ==> payload(#[trigger] arrivals[k]).len() <= BATCH_CAPACITY,
    ensures
        ({
            let (sent, kept) = run_batches(buf, arrivals);
            &&& concat(sent) + kept == buf + payloads(arrivals)
            &&& kept.len() <= BATCH_CAPACITY
            &&& forall|k: int| 0 <= k < sent.len() ==> (#[trigger] sent[k]).len() <= BATCH_CAPACITY
        }),
    decreases arrivals.len(),
{
    if arrivals.len() > 0 {
        let (sent0, kept0) = arrival_step(buf, arrivals[0]);
        let rest = arrivals.drop_first();
        assert forall|k: int| 0 <= k < rest.len() implies payload(#[trigger] rest[k]).len() <= BATCH_CAPACITY by {
            assert(rest[k] == arrivals[k + 1]);
        }
        assert(payload(arrivals[0]).len() <= BATCH_CAPACITY);
        lemma_every_byte_forwarded_once(kept0, rest);
        let (later, last) = run_batches(kept0, rest);
        assert(sent_bytes(sent0) + kept0 =~= buf + payload(arrivals[0]));
        match sent0 {
            Some(b) => {
                let all = seq![b] + later;
                assert(all.drop_first() =~= later);
                assert(concat(all) == b + concat(later));
                assert(concat(all) + last =~= b + (concat(later) + last));
            },
            None => {},
        }
        assert(buf + payloads(arrivals) =~= (buf + payload(arrivals[0])) + payloads(rest));
    } else {
        assert(concat(Seq::<Seq<u8>>::empty()) + buf =~= buf + payloads(arrivals));
    }
}

/// A datagram is never split across batches, and a batch is sent only when
/// it has to be: when the collected bytes `buf` and the datagram `data`
/// together would exceed the capacity, or the window has run out, the batch
/// sent is exactly `buf` and the batch kept is exactly `data`; otherwise
/// nothing is sent and `data` is appended whole to `buf`.
pub proof fn lemma_datagram_kept_whole(buf: Seq<u8>, data: Seq<u8>, window_elapsed: bool)
    ensures
        ({
            let (sent, kept) = datagram_step(buf, data, window_elapsed);
            &&& (buf.len() + data.len() > BATCH_CAPACITY || window_elapsed) ==> {
                &&& sent == Some(buf)
                &&& kept == data
            }
            &&& !(buf.len() + data.len() > BATCH_CAPACITY || window_elapsed) ==> {
                &&& sent is None
                &&& kept.len() == buf.len() + data.len()
                &&& kept.take(buf.len() as int) == buf
                &&& kept.skip(buf.len() as int) == data
            }
        }),
{
    let (sent, kept) = datagram_step(buf, data, window_elapsed);
    if !(buf.len() + data.len() > BATCH_CAPACITY || window_elapsed) {
        assert(kept.take(buf.len() as int) =~= buf);
        assert(kept.skip(buf.len() as int) =~= data);
    }
}

/// A quiet spell sends on everything collected and leaves the batch empty;
/// only an empty batch sends nothing.
pub proof fn lemma_quiet_sends_all(buf: Seq<u8>)
    ensures
        ({
            let (sent, kept) = quiet_step(buf);
            &&& kept.len() == 0
            &&& buf.len() > 0 ==> sent == Some(buf)
            &&& buf.len() == 0 ==> sent is None
        }),
{
}

/// Collects received datagrams into batches that are sent on together.
pub struct DatagramBatch {
    buf: Vec<u8>,
}

impl View for DatagramBatch {
    type V = Seq<u8>;

    closed spec fn view(&self) -> Seq<u8> {
        self.buf@
    }
}

impl DatagramBatch {
    #[verifier::type_invariant]
    spec fn within_capacity(self) -> bool {
        self.buf@.len() <= BATCH_CAPACITY
    }

    /// An empty batch.
    pub fn new() -> (r: Self)
        ensures
            r@ == Seq::<u8>::empty(),
    {
        DatagramBatch { buf: Vec::with_capacity(BATCH_CAPACITY) }
    }

    /// The bytes collected so far.
    pub fn bytes(&self) -> (r: &Vec<u8>)
        ensures
            r@ == self@,
    {
        &self.buf
    }

    /// Takes in a received datagram, as [`datagram_step`] says; returns the
    /// batch to send on, if one is due.
    pub fn on_datagram(&mut self, data: &[u8], window_elapsed: bool) -> (sent: Option<Vec<u8>>)
        requires
            data@.len() <= BATCH_CAPACITY,
        ensures
            final(self)@.len() <= BATCH_CAPACITY,
            old(self)@.len() + data@.len() > BATCH_CAPACITY || window_elapsed ==> {
                &&& sent matches Some(b) && b@ == old(self)@
                &&& final(self)@ == data@
            },
            !(old(self)@.len() + data@.len() > BATCH_CAPACITY || window_elapsed) ==> {
                &&& sent is None
                &&& final(self)@ == old(self)@ + data@
            },
            ({
                let (s, k) = datagram_step(old(self)@, data@, window_elapsed);
                &&& final(self)@ == k
                &&& match sent {
                    Some(b) => s == Some(b@),
                    None => s is None,
                }
            }),
    {
        proof {
            use_type_invariant(&*self);
        }
        let mut kept: Vec<u8> = Vec::new();
        std::mem::swap(&mut self.buf, &mut kept);
        let mut sent = None;
        if kept.len() + data.len() > BATCH_CAPACITY || window_elapsed {
            sent = Some(kept);
            kept = Vec::with_capacity(BATCH_CAPACITY);
        }
        let ghost before = kept@;
        kept.extend_from_slice(data);
        assert(kept@ =~= before + data@);
        self.buf = kept;
        sent
    }

    /// Handles a receive timeout, as [`quiet_step`] says: returns the batch
    /// to send on, or `None` when the batch is empty and listening on this
    /// socket should stop.
    pub fn on_quiet(&mut self) -> (sent: Option<Vec<u8>>)
        ensures
            final(self)@.len() == 0,
            old(self)@.len() > 0 ==> (sent matches Some(b) && b@ == old(self)@),
            old(self)@.len() == 0 ==> sent is None,
            ({
                let (s, k) = quiet_step(old(self)@);
                &&& final(self)@ == k
                &&& match sent {
                    Some(b) => s == Some(b@),
                    None => s is None,
                }
            }),
    {
        if self.buf.len() > 0 {
            let mut batch: Vec<u8> = Vec::with_capacity(BATCH_CAPACITY);
            std::mem::swap(&mut self.buf, &mut batch);
            Some(batch)
        } else {
            None
        }
    }
}

} // verus!
