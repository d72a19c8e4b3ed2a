//! The ring between the decoding thread and the audio thread. It only ever takes whole
//! frames, so the reader never sees half a sample.
use crate::format::StreamSpec;
use vstd::prelude::*;

verus! {

/// The ring holds this much audio.
pub const RING_MS: u32 = 500;

/// ... and never less than this many frames.
pub const RING_MIN_FRAMES: u64 = 2048;

#[verifier::external_type_specification]
#[verifier::external_body]
#[verifier::reject_recursive_types(T)]
pub struct ExProducer<T>(rtrb::Producer<T>);

#[verifier::external_type_specification]
#[verifier::external_body]
#[verifier::reject_recursive_types(T)]
pub struct ExConsumer<T>(rtrb::Consumer<T>);

/// All bytes written through this end since the ring was made, in order.
pub uninterp spec fn pushed(p: rtrb::Producer<u8>) -> Seq<u8>;

/// The number of bytes that the ring was made to hold.
pub uninterp spec fn capacity(p: rtrb::Producer<u8>) -> nat;

/// All bytes taken through this end since the ring was made, in order.
pub uninterp spec fn popped(c: rtrb::Consumer<u8>) -> Seq<u8>;

/// All bytes that are ever written to the ring that this end belongs to, in order.
pub uninterp spec fn sent(p: rtrb::Producer<u8>) -> Seq<u8>;

/// All bytes that are ever written to the ring that this end belongs to, in order.
pub uninterp spec fn coming(c: rtrb::Consumer<u8>) -> Seq<u8>;

/// The number of bytes that this end knows to be ready: those it found when it last looked,
/// less what it has taken since.
pub uninterp spec fn ready(c: rtrb::Consumer<u8>) -> nat;

/// The number of bytes that this end knows to be free: those it found when it last looked,
/// less what it has written since.
pub uninterp spec fn room(p: rtrb::Producer<u8>) -> nat;

/// What was written so far is the start of all that is ever written.
pub open spec fn writes_in_order(p: rtrb::Producer<u8>) -> bool {
    pushed(p).is_prefix_of(sent(p))
}

/// What was taken so far is the start of all that is ever written.
pub open spec fn reads_in_order(c: rtrb::Consumer<u8>) -> bool {
    popped(c).is_prefix_of(coming(c))
}

/// `rtrb::RingBuffer::new` makes an empty ring of the given capacity and returns its two
/// ends. (A capacity beyond `isize::MAX` bytes cannot be allocated.)
#[verifier::external_body]
fn new_ring(cap: usize) -> (r: (rtrb::Producer<u8>, rtrb::Consumer<u8>))
    requires
        cap <= isize::MAX,
    ensures
        pushed(r.0) == Seq::<u8>::empty(),
        capacity(r.0) == cap,
        popped(r.1) == Seq::<u8>::empty(),
        coming(r.1) == sent(r.0),
{
    rtrb::RingBuffer::<u8>::new(cap)
}

/// `rtrb::Producer::slots` looks how many bytes are free, and the end remembers the number.
/// The reader may free more at any time, so of the number itself only the bounds are known: no
/// more than the capacity, and no less than what was never written to. Looking writes nothing.
#[verifier::external_body]
fn free_slots(p: &mut rtrb::Producer<u8>) -> (n: usize)
    ensures
        n == room(*final(p)),
        n <= capacity(*old(p)),
        n + pushed(*old(p)).len() >= capacity(*old(p)),
        pushed(*final(p)) == pushed(*old(p)),
        capacity(*final(p)) == capacity(*old(p)),
        sent(*final(p)) == sent(*old(p)),
{
    p.slots()
}

/// `rtrb::Producer::is_abandoned` tells whether the reading end is gone. That depends on
/// another thread, so nothing is known of the answer.
#[verifier::external_body]
fn reader_gone(p: &rtrb::Producer<u8>) -> (b: bool) {
    p.is_abandoned()
}

/// `rtrb::Producer::write_chunk_uninit` for all of `bytes`, filled by `fill_from_iter`:
/// either every byte is written, in order behind those written before, or the ring has too
/// little room and nothing is. It has room at least for what was never written to, and for as
/// many bytes as the end knows to be free; whether it has more depends on the reader.
#[verifier::external_body]
fn write_all(p: &mut rtrb::Producer<u8>, bytes: &[u8]) -> (ok: bool)
    ensures
        capacity(*final(p)) == capacity(*old(p)),
        sent(*final(p)) == sent(*old(p)),
        ok ==> writes_in_order(*final(p)),
        pushed(*final(p)) == (if ok {
            pushed(*old(p)) + bytes@
        } else {
            pushed(*old(p))
        }),
        pushed(*old(p)).len() + bytes@.len() <= capacity(*old(p)) ==> ok,
        bytes@.len() <= room(*old(p)) ==> ok && room(*final(p)) == room(*old(p)) - bytes@.len(),
{
    match p.write_chunk_uninit(bytes.len()) {
        Ok(chunk) => {
            chunk.fill_from_iter(bytes.iter().copied());
            true
        },
        Err(_) => false,
    }
}

/// `rtrb::Consumer::slots` looks how many bytes are ready, and the end remembers the number.
/// The writer may add more at any time, so nothing is known of the number itself. Looking
/// takes nothing.
#[verifier::external_body]
fn ready_slots(c: &mut rtrb::Consumer<u8>) -> (n: usize)
    ensures
        n == ready(*final(c)),
        popped(*final(c)) == popped(*old(c)),
        coming(*final(c)) == coming(*old(c)),
{
    c.slots()
}

/// `rtrb::Consumer::is_abandoned` tells whether the writing end is gone. That depends on
/// another thread, so nothing is known of the answer.
#[verifier::external_body]
fn writer_gone(c: &rtrb::Consumer<u8>) -> (b: bool) {
    c.is_abandoned()
}

/// `rtrb::Consumer::read_chunk` for `n` bytes, copied from `as_slices` and taken out with
/// `commit`: either exactly `n` bytes are taken, or too few are ready and nothing is. As many
/// as the end knows to be ready can always be taken; whether more can depends on the writer.
/// The ring is a queue: bytes come out in the order in which they were written, each once.
#[verifier::external_body]
fn read_exactly(c: &mut rtrb::Consumer<u8>, n: usize, buf: &mut Vec<u8>) -> (ok: bool)
    ensures
        coming(*final(c)) == coming(*old(c)),
        ok ==> reads_in_order(*final(c)),
        ok ==> final(buf)@.len() == n && popped(*final(c)) == popped(*old(c)) + final(buf)@,
        !ok ==> final(buf)@ == old(buf)@ && popped(*final(c)) == popped(*old(c)),
        n <= ready(*old(c)) ==> ok && ready(*final(c)) == ready(*old(c)) - n,
{
    match c.read_chunk(n) {
        Ok(chunk) => {
            let (a, b) = chunk.as_slices();
            buf.clear();
            buf.extend_from_slice(a);
            buf.extend_from_slice(b);
            chunk.commit(n);
            true
        },
        Err(_) => false,
    }
}

/// Frames in the ring of a stream.
pub open spec fn ring_frames(rate: nat) -> nat {
    if rate * RING_MS as nat / 1000 >= RING_MIN_FRAMES {
        rate * RING_MS as nat / 1000
    } else {
        RING_MIN_FRAMES as nat
    }
}

/// A ring for half a second of the stream.
pub fn ring_for_spec(spec: StreamSpec) -> (r: (rtrb::Producer<u8>, rtrb::Consumer<u8>))
    requires
        ring_frames(spec.rate as nat) * spec.frame_bytes() <= isize::MAX,
    ensures
        pushed(r.0) == Seq::<u8>::empty(),
        capacity(r.0) == ring_frames(spec.rate as nat) * spec.frame_bytes(),
        popped(r.1) == Seq::<u8>::empty(),
        coming(r.1) == sent(r.0),
        writes_in_order(r.0),
        reads_in_order(r.1),
{
    let half: u64 = spec.rate as u64 * RING_MS as u64 / 1000;
    let frames: u64 = if half >= RING_MIN_FRAMES {
        half
    } else {
        RING_MIN_FRAMES
    };
    assert(spec.frame_bytes() <= isize::MAX && (spec.frame_bytes() > 0 ==> frames <= isize::MAX))
        by (nonlinear_arith)
        requires
            frames * spec.frame_bytes() <= isize::MAX,
            frames >= 1,
            spec.frame_bytes() >= 0,
    ;
    let fb: usize = spec.bytes_per_frame();
    if fb == 0 {
        assert(frames * spec.frame_bytes() == 0) by (nonlinear_arith)
            requires
                spec.frame_bytes() == 0,
        ;
        return new_ring(0);
    }
    new_ring(frames as usize * fb)
}

/// How far a block got into the ring.
#[derive(Clone, Copy, Debug, PartialEq, Eq, Structural)]
pub enum PushState {
    /// All of it.
    Done,
    /// The ring is full: try again later.
    Full,
    /// The reader is gone: give up.
    Gone,
}

/// What to do with the rest of a block.
#[derive(Clone, Copy, Debug, PartialEq, Eq, Structural)]
pub enum PushStep {
    /// The reader is gone: give up.
    Gone,
    /// Not even a frame fits: try again later.
    Full,
    /// This many bytes go in at once.
    Write(usize),
}

/// What to do with `left` bytes, given whether the reader is gone and how many bytes are
/// free: write the whole frames that fit.
pub open spec fn push_step_of(gone: bool, slots: nat, left: nat, fb: nat) -> PushStep {
    let free = (slots / fb) * fb;
    if gone {
        PushStep::Gone
    } else if free == 0 {
        PushStep::Full
    } else if free < left {
        PushStep::Write(free as usize)
    } else {
        PushStep::Write(left as usize)
    }
}

pub fn push_step(gone: bool, slots: usize, left: usize, fb: usize) -> (s: PushStep)
    requires
        fb > 0,
    ensures
        s == push_step_of(gone, slots as nat, left as nat, fb as nat),
        s matches PushStep::Write(n) ==> {
            &&& n <= slots
            &&& n <= left
            &&& left > 0 ==> n > 0
            &&& n < left ==> n as int % fb as int == 0 && slots < n + fb
        },
        s == PushStep::Full ==> slots < fb,
{
    if gone {
        return PushStep::Gone;
    }
    let free: usize = whole_frames(slots, fb);
    if free == 0 {
        PushStep::Full
    } else if free < left {
        PushStep::Write(free)
    } else {
        PushStep::Write(left)
    }
}

/// Writes bytes that fit into what was never written to.
pub(crate) fn write_fitting(prod: &mut rtrb::Producer<u8>, bytes: &[u8])
    requires
        pushed(*old(prod)).len() + bytes@.len() <= capacity(*old(prod)),
    ensures
        pushed(*final(prod)) == pushed(*old(prod)) + bytes@,
        capacity(*final(prod)) == capacity(*old(prod)),
        sent(*final(prod)) == sent(*old(prod)),
        writes_in_order(*final(prod)),
{
    let ok: bool = write_all(prod, bytes);
    assert(ok);
}

/// Pushes as much of `bytes`, from place `at` on, as the ring takes, in whole frames of
/// `fb` bytes. Returns the place reached. It stops before the end only if it looked and found
/// less room than a frame, or the reader gone.
pub fn push_block(prod: &mut rtrb::Producer<u8>, bytes: &[u8], at: usize, fb: usize) -> (r: (
    usize,
    PushState,
))
    requires
        at <= bytes@.len(),
        fb > 0,
    ensures
        at <= r.0 <= bytes@.len(),
        pushed(*final(prod)) == pushed(*old(prod)) + bytes@.subrange(at as int, r.0 as int),
        capacity(*final(prod)) == capacity(*old(prod)),
        sent(*final(prod)) == sent(*old(prod)),
        writes_in_order(*old(prod)) ==> writes_in_order(*final(prod)),
        r.1 == PushState::Done <==> r.0 == bytes@.len(),
        r.0 < bytes@.len() ==> (r.0 - at) % fb as int == 0,
        r.1 == PushState::Full ==> push_step_of(
            false,
            room(*final(prod)),
            (bytes@.len() - r.0) as nat,
            fb as nat,
        ) == PushStep::Full && capacity(*final(prod)) < pushed(*final(prod)).len() + fb,
        pushed(*old(prod)).len() + (bytes@.len() - at) + fb <= capacity(*old(prod)) ==> (r.1
            == PushState::Done || r == (at, PushState::Gone)),
{
    let mut pos: usize = at;
    proof {
        vstd::arithmetic::div_mod::lemma_small_mod(0, fb as nat);
    }
    assert(bytes@.subrange(at as int, at as int) =~= Seq::empty());
    assert(pushed(*prod) + Seq::<u8>::empty() =~= pushed(*prod));
    while pos < bytes.len()
        invariant
            fb > 0,
            at <= pos <= bytes@.len(),
            pushed(*prod) == pushed(*old(prod)) + bytes@.subrange(at as int, pos as int),
            capacity(*prod) == capacity(*old(prod)),
            sent(*prod) == sent(*old(prod)),
            writes_in_order(*old(prod)) ==> writes_in_order(*prod),
            pos < bytes@.len() ==> (pos - at) % fb as int == 0,
            pushed(*old(prod)).len() + (bytes@.len() - at) + fb <= capacity(*old(prod)) ==> pos
                == at || pos == bytes@.len(),
        decreases bytes@.len() - pos,
    {
        let gone: bool = reader_gone(prod);
        let slots: usize = free_slots(prod);
        let left: usize = bytes.len() - pos;
        match push_step(gone, slots, left, fb) {
            PushStep::Gone => {
                return (pos, PushState::Gone);
            },
            PushStep::Full => {
                return (pos, PushState::Full);
            },
            PushStep::Write(n) => {
                let part = vstd::slice::slice_subrange(bytes, pos, pos + n);
                let ok: bool = write_all(prod, part);
                assert(ok);
                assert(bytes@.subrange(at as int, pos as int) + part@ =~= bytes@.subrange(
                    at as int,
                    pos + n,
                ));
                assert(pushed(*prod) =~= pushed(*old(prod)) + bytes@.subrange(at as int, pos + n));
                proof {
                    if n < left {
                        vstd::arithmetic::div_mod::lemma_add_mod_noop(
                            (pos - at) as int,
                            n as int,
                            fb as int,
                        );
                        vstd::arithmetic::div_mod::lemma_small_mod(0, fb as nat);
                    }
                }
                pos = pos + n;
            },
        }
    }
    (pos, PushState::Done)
}

/// The part of `n` bytes that is whole frames.
fn whole_frames(n: usize, fb: usize) -> (r: usize)
    requires
        fb > 0,
    ensures
        r == (n as int / fb as int) * fb,
        r <= n < r + fb,
        r as int % fb as int == 0,
{
    proof {
        vstd::arithmetic::div_mod::lemma_fundamental_div_mod(n as int, fb as int);
        vstd::arithmetic::div_mod::lemma_mod_multiples_basic(n as int / fb as int, fb as int);
        assert((n as int / fb as int) * fb == fb * (n as int / fb as int)) by (nonlinear_arith);
        assert((n as int / fb as int) * fb >= 0) by (nonlinear_arith)
            requires
                n >= 0,
                fb > 0,
        ;
    }
    (n / fb) * fb
}

/// What the reading side found.
#[derive(Clone, Copy, Debug, PartialEq, Eq, Structural)]
pub enum PullState {
    /// This many bytes were taken.
    Got(usize),
    /// Nothing is ready yet.
    Empty,
    /// Nothing is ready and nothing will come.
    Drained,
}

/// How many of `n` ready bytes are taken at once: the whole frames among them, but no more
/// than `cap`; none before there is a whole frame.
pub open spec fn pulled(n: nat, fb: nat, cap: nat) -> Option<nat> {
    let whole = (n / fb) * fb;
    if n < fb {
        None
    } else if whole < cap {
        Some(whole)
    } else {
        Some(cap)
    }
}

/// Decides how many of the ready bytes to take.
pub fn pull_len(slots: usize, fb: usize, cap: usize) -> (r: Option<usize>)
    requires
        fb > 0,
    ensures
        match pulled(slots as nat, fb as nat, cap as nat) {
            Some(n) => r matches Some(m) && m == n,
            None => r is None,
        },
        r matches Some(n) ==> n <= slots && n <= cap && (cap as int % fb as int == 0 ==> n as int
            % fb as int == 0),
{
    if slots < fb {
        return None;
    }
    let whole: usize = whole_frames(slots, fb);
    Some(
        if whole < cap {
            whole
        } else {
            cap
        },
    )
}

/// What a ring without a whole frame means: more is to come, unless the writer is gone.
pub fn pull_idle(writer_gone: bool) -> (s: PullState)
    ensures
        s == (if writer_gone {
            PullState::Drained
        } else {
            PullState::Empty
        }),
{
    if writer_gone {
        PullState::Drained
    } else {
        PullState::Empty
    }
}

/// Takes whole frames that are ready, at most `cap` bytes of them. It comes back without any
/// only if it looked and found less than a frame.
pub fn pull_block(cons: &mut rtrb::Consumer<u8>, fb: usize, cap: usize, buf: &mut Vec<u8>) -> (r:
    PullState)
    requires
        fb > 0,
        cap as int % fb as int == 0,
    ensures
        match r {
            PullState::Got(n) => {
                &&& n == final(buf)@.len()
                &&& n <= cap
                &&& n as int % fb as int == 0
                &&& pulled(ready(*final(cons)) + n as nat, fb as nat, cap as nat) == Some(n as nat)
                &&& popped(*final(cons)) == popped(*old(cons)) + final(buf)@
            },
            _ => {
                &&& ready(*final(cons)) < fb
                &&& popped(*final(cons)) == popped(*old(cons))
                &&& final(buf)@ == old(buf)@
            },
        },
        coming(*final(cons)) == coming(*old(cons)),
        reads_in_order(*old(cons)) ==> reads_in_order(*final(cons)),
{
    let slots: usize = ready_slots(cons);
    if let Some(n) = pull_len(slots, fb, cap) {
        if read_exactly(cons, n, buf) {
            return PullState::Got(n);
        }
    }
    pull_idle(writer_gone(cons))
}

/// The reader gets the writer's bytes, unchanged and in order: whatever the two ends of a ring
/// have done, what one has taken and what the other has written agree from the first byte on,
/// as far as the shorter of the two goes.
pub proof fn law_reader_gets_what_was_written(p: rtrb::Producer<u8>, c: rtrb::Consumer<u8>)
    requires
        coming(c) == sent(p),
        writes_in_order(p),
        reads_in_order(c),
    ensures
        popped(c).len() <= pushed(p).len() ==> popped(c).is_prefix_of(pushed(p)),
        pushed(p).len() <= popped(c).len() ==> pushed(p).is_prefix_of(popped(c)),
        popped(c).len() == pushed(p).len() ==> popped(c) == pushed(p),
{
    assert(popped(c) =~= coming(c).subrange(0, popped(c).len() as int));
    assert(pushed(p) =~= sent(p).subrange(0, pushed(p).len() as int));
    if popped(c).len() == pushed(p).len() {
        assert(popped(c) =~= pushed(p));
    }
}

/// Blocks of whole frames keep the ring at a frame boundary: whatever part of one got in,
/// the bytes written so far are still whole frames.
pub proof fn law_ring_holds_whole_frames(
    before: Seq<u8>,
    block: Seq<u8>,
    at: int,
    reached: int,
    fb: int,
)
    requires
        fb > 0,
        before.len() as int % fb == 0,
        0 <= at <= reached <= block.len(),
        block.len() as int % fb == 0,
        at % fb == 0,
        reached < block.len() ==> (reached - at) % fb == 0,
    ensures
        (before + block.subrange(at, reached)).len() as int % fb == 0,
{
    let n = reached - at;
    if reached == block.len() {
        vstd::arithmetic::div_mod::lemma_sub_mod_noop(block.len() as int, at, fb);
    }
    vstd::arithmetic::div_mod::lemma_small_mod(0, fb as nat);
    vstd::arithmetic::div_mod::lemma_add_mod_noop(before.len() as int, n, fb);
}

/// A ring holds half a second of its stream, but two thousand and forty-eight frames at least;
/// it is empty at first, and its two ends belong to each other.
pub proof fn law_ring_holds_half_a_second(
    spec: StreamSpec,
    r: (rtrb::Producer<u8>, rtrb::Consumer<u8>),
)
    requires
        call_ensures(ring_for_spec, (spec,), r),
        ring_frames(spec.rate as nat) * spec.frame_bytes() <= isize::MAX,
    ensures
        ({
            let half = spec.rate as nat * 500 / 1000;
            &&& half >= 2048 ==> capacity(r.0) == half * spec.frame_bytes()
            &&& half < 2048 ==> capacity(r.0) == 2048 * spec.frame_bytes()
        }),
        pushed(r.0).len() == 0,
        popped(r.1).len() == 0,
        coming(r.1) == sent(r.0),
{
}

/// Only whole frames are written, as many as fit: nothing once the reader is gone, nothing if
/// no frame fits, all that is left if it fits, and else no frame less than there is room for.
pub proof fn law_as_many_frames_as_fit(
    gone: bool,
    slots: usize,
    left: usize,
    fb: usize,
    s: PushStep,
)
    requires
        call_ensures(push_step, (gone, slots, left, fb), s),
        fb > 0,
    ensures
        s == PushStep::Gone <==> gone,
        s == PushStep::Full <==> !gone && slots < fb,
        s matches PushStep::Write(n) ==> {
            &&& n <= slots
            &&& n <= left
            &&& n < left ==> n as int % fb as int == 0 && slots < n + fb
        },
{
    vstd::arithmetic::div_mod::lemma_fundamental_div_mod(slots as int, fb as int);
    let q = slots as int / fb as int;
    if slots < fb {
        vstd::arithmetic::div_mod::lemma_basic_div(slots as int, fb as int);
        assert(0 * fb == 0);
    } else {
        assert(q >= 1) by (nonlinear_arith)
            requires
                slots >= fb,
                fb > 0,
                slots == fb * q + slots as int % fb as int,
                0 <= slots as int % fb as int,
                (slots as int % fb as int) < fb,
        ;
        assert(q * fb >= fb) by (nonlinear_arith)
            requires
                q >= 1,
                fb > 0,
        ;
    }
}

/// What was pushed stands behind what was written before, in order; what did not go in is left
/// to the caller, and a block is cut between frames only.
pub proof fn law_push_block_drops_nothing(
    p: &mut rtrb::Producer<u8>,
    bytes: &[u8],
    at: usize,
    fb: usize,
    r: (usize, PushState),
)
    requires
        call_ensures(push_block, (p, bytes, at, fb), r),
        at <= bytes@.len(),
        fb > 0,
    ensures
        at <= r.0 <= bytes@.len(),
        pushed(*final(p)) + bytes@.skip(r.0 as int) == pushed(*old(p)) + bytes@.skip(at as int),
        r.1 == PushState::Done <==> r.0 == bytes@.len(),
        r.0 < bytes@.len() ==> (r.0 - at) % fb as int == 0,
        r.1 == PushState::Full ==> room(*final(p)) < fb,
        sent(*final(p)) == sent(*old(p)),
        capacity(*final(p)) == capacity(*old(p)),
{
    assert(bytes@.skip(at as int) =~= bytes@.subrange(at as int, r.0 as int) + bytes@.skip(
        r.0 as int,
    ));
    let n = room(*final(p));
    if r.1 == PushState::Full && n >= fb {
        vstd::arithmetic::div_mod::lemma_fundamental_div_mod(n as int, fb as int);
        let q = n as int / fb as int;
        assert(q >= 1) by (nonlinear_arith)
            requires
                n >= fb,
                fb > 0,
                n == fb * q + n as int % fb as int,
                (n as int % fb as int) < fb,
        ;
        assert(q * fb >= fb) by (nonlinear_arith)
            requires
                q >= 1,
                fb > 0,
        ;
    }
}

/// Whole frames are taken, as many as are ready, up to the cap; none only if no frame is ready.
pub proof fn law_as_many_frames_as_are_ready(slots: usize, fb: usize, cap: usize, r: Option<usize>)
    requires
        call_ensures(pull_len, (slots, fb, cap), r),
        fb > 0,
        cap as int % fb as int == 0,
    ensures
        r is None <==> slots < fb,
        r matches Some(n) ==> {
            &&& n <= slots
            &&& n <= cap
            &&& n as int % fb as int == 0
            &&& n < cap ==> slots < n + fb
        },
{
    vstd::arithmetic::div_mod::lemma_fundamental_div_mod(slots as int, fb as int);
    assert(slots as int / fb as int * fb == fb * (slots as int / fb as int)) by (nonlinear_arith);
    if slots >= fb {
        let q = slots as int / fb as int;
        assert(q * fb <= slots < q * fb + fb);
    }
}

/// A ring without a frame is drained only if its writer is gone.
pub proof fn law_drained_means_no_writer(gone: bool, s: PullState)
    requires
        call_ensures(pull_idle, (gone,), s),
    ensures
        gone ==> s == PullState::Drained,
        !gone ==> s == PullState::Empty,
{
}

/// What is pulled is what comes next in the ring: whole frames, no more than the cap, none only
/// if no frame is ready; nothing is skipped.
pub proof fn law_pull_block_skips_nothing(
    c: &mut rtrb::Consumer<u8>,
    fb: usize,
    cap: usize,
    buf: &mut Vec<u8>,
    r: PullState,
)
    requires
        call_ensures(pull_block, (c, fb, cap, buf), r),
        fb > 0,
        cap as int % fb as int == 0,
    ensures
        r matches PullState::Got(n) ==> {
            &&& final(buf)@.len() == n
            &&& n <= cap
            &&& n as int % fb as int == 0
            &&& popped(*final(c)) == popped(*old(c)) + final(buf)@
            &&& n < cap ==> ready(*final(c)) < fb
        },
        !(r is Got) ==> {
            &&& ready(*final(c)) < fb
            &&& popped(*final(c)) == popped(*old(c))
            &&& final(buf)@ == old(buf)@
        },
        coming(*final(c)) == coming(*old(c)),
{
    if let PullState::Got(n) = r {
        let all = (ready(*final(c)) + n) as int;
        vstd::arithmetic::div_mod::lemma_fundamental_div_mod(all, fb as int);
        assert(all / fb as int * fb == fb * (all / fb as int)) by (nonlinear_arith);
    }
}

/// A ring with room for all of a block, and a frame more, takes all of it, unless the reader is
/// gone; a full one has less than a frame that was never written to.
pub proof fn law_roomy_ring_takes_all(
    p: &mut rtrb::Producer<u8>,
    bytes: &[u8],
    at: usize,
    fb: usize,
    r: (usize, PushState),
)
    requires
        call_ensures(push_block, (p, bytes, at, fb), r),
        at <= bytes@.len(),
        fb > 0,
    ensures
        pushed(*old(p)).len() + (bytes@.len() - at) + fb <= capacity(*old(p)) ==> r.1
            == PushState::Done || r == (at, PushState::Gone),
        r.1 == PushState::Full ==> capacity(*final(p)) < pushed(*final(p)).len() + fb,
        writes_in_order(*old(p)) ==> writes_in_order(*final(p)),
{
}

} // verus!
