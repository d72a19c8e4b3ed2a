//! The playback device: what it was opened with, and how it is brought back after a fault.
use crate::dop::{dop_silence, dop_words, silence_bytes};
use crate::error::Error;
use crate::format::{AlsaFmt, StreamSpec};
use vstd::prelude::*;

verus! {

/// Silence played after the device was re-initialised, so that a DAC can lock again.
pub const REINIT_GUARD_MS: u32 = 48;

/// The driver's error number for an underrun.
pub const EPIPE: i32 = 32;

/// The driver's error number for a suspended stream.
pub const ESTRPIPE: i32 = 86;

/// A stream that a device can be opened for: it has channels, its sizes fit in memory, and
/// DoP words have room for their marker.
pub open spec fn playable(spec: StreamSpec) -> bool {
    &&& spec.channels > 0
    &&& spec.frame_bytes() <= usize::MAX
    &&& spec.is_dop ==> spec.fmt != AlsaFmt::S16
}

/// The largest even number up to `n`.
pub open spec fn even(n: nat) -> nat {
    (n - n % 2) as nat
}

/// Silence for a stream: zeros, or an even number of DoP frames so that the markers keep
/// alternating behind it.
pub open spec fn silence(spec: StreamSpec, frames: nat) -> Seq<u8> {
    if spec.is_dop {
        dop_words(
            spec.fmt,
            spec.channels as nat,
            silence_bytes(spec.channels as nat, even(frames)),
            false,
        )
    } else {
        Seq::new(frames * spec.frame_bytes(), |i: int| 0u8)
    }
}

/// Frames of `ms` milliseconds, counted in whole milliseconds of the rate.
pub open spec fn frames_of_ms(rate: nat, ms: nat) -> nat {
    rate / 1000 * ms
}

pub fn silence_for(spec: StreamSpec, frames: usize) -> (v: Vec<u8>)
    requires
        playable(spec),
        frames * spec.frame_bytes() <= usize::MAX,
    ensures
        v@ == silence(spec, frames as nat),
{
    if spec.is_dop {
        let n: usize = frames - frames % 2;
        let ghost ch = spec.channels as int;
        assert(spec.frame_bytes() == spec.fmt.sample_bytes() * ch);
        assert(n * 2 * ch <= usize::MAX && 2 * ch <= usize::MAX) by (nonlinear_arith)
            requires
                n <= frames,
                n >= 0,
                frames * spec.frame_bytes() <= usize::MAX,
                spec.frame_bytes() == spec.fmt.sample_bytes() * ch,
                spec.fmt.sample_bytes() >= 2,
                spec.frame_bytes() <= usize::MAX,
                ch >= 0,
        ;
        dop_silence(spec.fmt, spec.channels, n)
    } else {
        let fb: usize = spec.bytes_per_frame();
        let v: Vec<u8> = vec![0u8; frames * fb];
        assert(v@ =~= silence(spec, frames as nat));
        v
    }
}

/// What becomes of a failed write.
#[derive(Clone, Copy, Debug, PartialEq, Eq, Structural)]
pub struct Recovery {
    /// The device was re-initialised by an underrun or a suspend.
    pub reinit: bool,
    /// Silence is to be written first.
    pub prime: bool,
}

/// An open device.
#[derive(Clone, Copy, Debug, PartialEq, Eq, Structural)]
pub struct AlsaSink {
    spec: StreamSpec,
    can_pause: bool,
    xruns: u64,
    guard_reinit: bool,
}

impl AlsaSink {
    pub closed spec fn stream(self) -> StreamSpec {
        self.spec
    }

    pub closed spec fn pausable(self) -> bool {
        self.can_pause
    }

    /// Underruns so far.
    pub closed spec fn underruns(self) -> u64 {
        self.xruns
    }

    pub closed spec fn guarded(self) -> bool {
        self.guard_reinit
    }

    /// The device as configured. It has to run at exactly the stream's rate: anything else
    /// would mean resampling.
    pub fn open(spec: StreamSpec, actual_rate: u32, can_pause: bool) -> (r: Result<Self, Error>)
        ensures
            actual_rate == spec.rate <==> r is Ok,
            r matches Ok(s) ==> {
                &&& s.stream() == spec
                &&& s.pausable() == can_pause
                &&& s.underruns() == 0
                &&& !s.guarded()
            },
            r matches Err(e) ==> e == (Error::RateMismatch {
                requested: spec.rate,
                actual: actual_rate,
            }),
    {
        match configure_hw(spec, actual_rate) {
            Err(e) => Err(e),
            Ok(()) => Ok(AlsaSink { spec, can_pause, xruns: 0, guard_reinit: false }),
        }
    }

    pub fn spec(&self) -> (s: StreamSpec)
        ensures
            s == self.stream(),
    {
        self.spec
    }

    pub fn xruns(&self) -> (n: u64)
        ensures
            n == self.underruns(),
    {
        self.xruns
    }

    pub fn can_pause(&self) -> (b: bool)
        ensures
            b == self.pausable(),
    {
        self.can_pause
    }

    /// From here on a re-initialised device is primed with silence.
    pub fn enable_reinit_guard(&mut self)
        ensures
            final(self).guarded(),
            final(self).stream() == old(self).stream(),
            final(self).pausable() == old(self).pausable(),
            final(self).underruns() == old(self).underruns(),
    {
        self.guard_reinit = true;
    }

    /// Takes note of a failed write. Only an underrun counts as one; an underrun and a
    /// suspend both re-initialise the device.
    pub fn recover(&mut self, errno: i32) -> (r: Recovery)
        requires
            old(self).underruns() < u64::MAX,
        ensures
            final(self).underruns() == old(self).underruns() + (if errno == EPIPE {
                1int
            } else {
                0
            }),
            final(self).stream() == old(self).stream(),
            final(self).pausable() == old(self).pausable(),
            final(self).guarded() == old(self).guarded(),
            r.reinit == (errno == EPIPE || errno == ESTRPIPE),
            r.prime == (r.reinit && old(self).guarded()),
    {
        let reinit = errno == EPIPE || errno == ESTRPIPE;
        if errno == EPIPE {
            self.xruns = self.xruns + 1;
        }
        Recovery { reinit, prime: reinit && self.guard_reinit }
    }

    /// The silence that a re-initialised device is primed with.
    pub fn prime_reinit_silence(&self) -> (v: Vec<u8>)
        requires
            playable(self.stream()),
            frames_of_ms(self.stream().rate as nat, REINIT_GUARD_MS as nat)
                * self.stream().frame_bytes() <= usize::MAX,
        ensures
            v@ == silence(
                self.stream(),
                frames_of_ms(self.stream().rate as nat, REINIT_GUARD_MS as nat),
            ),
    {
        let ms: u64 = self.spec.rate as u64 / 1000;
        assert(ms * 48 <= u64::MAX);
        let frames: u64 = ms * 48;
        assert(frames == frames_of_ms(self.spec.rate as nat, REINIT_GUARD_MS as nat))
            by (nonlinear_arith)
            requires
                frames == ms * 48,
                REINIT_GUARD_MS == 48,
                ms == self.spec.rate as nat / 1000,
        ;
        assert(self.spec.frame_bytes() >= 1) by (nonlinear_arith)
            requires
                self.spec.frame_bytes() == self.spec.fmt.sample_bytes() * self.spec.channels,
                self.spec.fmt.sample_bytes() >= 2,
                self.spec.channels >= 1,
        ;
        assert(frames <= usize::MAX) by (nonlinear_arith)
            requires
                frames * self.spec.frame_bytes() <= usize::MAX,
                self.spec.frame_bytes() >= 1,
                frames >= 0,
        ;
        silence_for(self.spec, frames as usize)
    }
}

/// Whether the rate that the hardware settled on is the one asked for.
pub fn configure_hw(spec: StreamSpec, actual_rate: u32) -> (r: Result<(), Error>)
    ensures
        r == (if actual_rate == spec.rate {
            Ok::<(), Error>(())
        } else {
            Err::<(), Error>(Error::RateMismatch { requested: spec.rate, actual: actual_rate })
        }),
{
    if actual_rate != spec.rate {
        return Err(Error::RateMismatch { requested: spec.rate, actual: actual_rate });
    }
    Ok(())
}

/// A buffer on its way to or from the device, in units of one frame.
#[derive(Clone, Copy, Debug, PartialEq, Eq, Structural)]
pub struct Transfer {
    pub len: usize,
    /// Elements of the buffer to one frame.
    pub unit: usize,
    pub off: usize,
}

impl Transfer {
    pub open spec fn wf(self) -> bool {
        self.off <= self.len
    }

    pub fn new(len: usize, unit: usize) -> (t: Self)
        ensures
            t == (Transfer { len, unit, off: 0 }),
            t.wf(),
    {
        Transfer { len, unit, off: 0 }
    }

    /// Where the next call has to start; nothing once the whole buffer has gone through.
    pub fn pending(&self) -> (r: Option<usize>)
        ensures
            r == (if self.off < self.len {
                Some(self.off)
            } else {
                None
            }),
    {
        if self.off < self.len {
            Some(self.off)
        } else {
            None
        }
    }

    /// The device took `frames` frames.
    pub fn moved(&mut self, frames: usize)
        requires
            old(self).wf(),
            old(self).off + frames * old(self).unit <= old(self).len,
        ensures
            final(self).wf(),
            *final(self) == (Transfer {
                off: (old(self).off + frames * old(self).unit) as usize,
                ..*old(self)
            }),
    {
        assert(0 <= frames * self.unit) by (nonlinear_arith);
        self.off = self.off + frames * self.unit;
    }
}

/// Priming a device keeps DoP locked: the silence is an even number of frames, so the
/// stream's own words behind it start on the first marker again.
pub proof fn law_silence_keeps_markers(spec: StreamSpec, frames: nat, dsd: Seq<u8>)
    requires
        spec.is_dop,
        spec.channels > 0,
    ensures
        dop_words(
            spec.fmt,
            spec.channels as nat,
            silence_bytes(spec.channels as nat, even(frames)) + dsd,
            false,
        ) == silence(spec, frames) + dop_words(spec.fmt, spec.channels as nat, dsd, false),
{
    crate::dop::law_even_silence_keeps_the_phase(
        spec.fmt,
        spec.channels as nat,
        even(frames),
        dsd,
    );
}

/// A device is used only at exactly the stream's rate; anything else is refused, with both
/// rates told.
pub proof fn law_only_the_exact_rate_opens(
    spec: StreamSpec,
    rate: u32,
    pause: bool,
    r: Result<AlsaSink, Error>,
    c: Result<(), Error>,
)
    requires
        call_ensures(AlsaSink::open, (spec, rate, pause), r),
        call_ensures(configure_hw, (spec, rate), c),
    ensures
        r is Ok <==> rate == spec.rate,
        c is Ok <==> rate == spec.rate,
        r matches Ok(s) ==> s.stream() == spec && s.pausable() == pause && s.underruns() == 0
            && !s.guarded(),
        r matches Err(e) ==> e == (Error::RateMismatch { requested: spec.rate, actual: rate }),
        c matches Err(e) ==> e == (Error::RateMismatch { requested: spec.rate, actual: rate }),
{
}

/// The device tells its stream, its underruns and whether it can pause; guarding it changes
/// the guard alone.
pub proof fn law_device_tells_its_state(
    s: AlsaSink,
    st: StreamSpec,
    n: u64,
    p: bool,
    g: &mut AlsaSink,
    u: (),
)
    requires
        call_ensures(AlsaSink::spec, (&s,), st),
        call_ensures(AlsaSink::xruns, (&s,), n),
        call_ensures(AlsaSink::can_pause, (&s,), p),
        call_ensures(AlsaSink::enable_reinit_guard, (g,), u),
    ensures
        st == s.stream(),
        n == s.underruns(),
        p == s.pausable(),
        final(g).guarded(),
        final(g).stream() == old(g).stream(),
        final(g).underruns() == old(g).underruns(),
        final(g).pausable() == old(g).pausable(),
{
}

/// A broken pipe is an underrun and counts as one; a suspend does not. Both re-initialise the
/// device, which is primed if it is guarded; no other failure does.
pub proof fn law_recovery_counts_underruns(s: &mut AlsaSink, errno: i32, r: Recovery)
    requires
        call_ensures(AlsaSink::recover, (s, errno), r),
        old(s).underruns() < u64::MAX,
    ensures
        errno == 32 ==> final(s).underruns() == old(s).underruns() + 1,
        errno != 32 ==> final(s).underruns() == old(s).underruns(),
        r.reinit <==> errno == 32 || errno == 86,
        r.prime <==> r.reinit && old(s).guarded(),
        final(s).stream() == old(s).stream(),
        final(s).guarded() == old(s).guarded(),
        final(s).pausable() == old(s).pausable(),
{
}

/// Silence for PCM is zeros, one sample of every channel in every frame.
pub proof fn law_pcm_silence_is_zero(spec: StreamSpec, frames: usize, v: Vec<u8>, i: int)
    requires
        call_ensures(silence_for, (spec, frames), v),
        playable(spec),
        frames * spec.frame_bytes() <= usize::MAX,
        !spec.is_dop,
    ensures
        v@.len() == frames * spec.frame_bytes(),
        0 <= i < v@.len() ==> v@[i] == 0,
{
}

/// Silence for DoP is an even number of frames of DSD silence under alternating markers, the
/// first one first; at most one frame less than asked for.
pub proof fn law_dop_silence_is_marked(
    spec: StreamSpec,
    frames: usize,
    v: Vec<u8>,
    f: nat,
    c: nat,
)
    requires
        call_ensures(silence_for, (spec, frames), v),
        playable(spec),
        frames * spec.frame_bytes() <= usize::MAX,
        spec.is_dop,
        f < frames - frames % 2,
        c < spec.channels,
    ensures
        ({
            let w: int = if spec.fmt == AlsaFmt::S32 {
                4
            } else {
                3
            };
            let at = (f * spec.channels + c) * w;
            &&& v@.len() == (frames - frames % 2) * spec.channels * w
            &&& 0 <= at && at + w <= v@.len()
            &&& v@[at + w - 1] == (if f % 2 == 0 {
                0x05u8
            } else {
                0xFAu8
            })
            &&& v@[at + w - 2] == 0x69
            &&& v@[at + w - 3] == 0x69
            &&& w == 4 ==> v@[at] == 0
        }),
{
    let ch = spec.channels as nat;
    let n = even(frames as nat);
    let dsd = crate::dop::silence_bytes(ch, n);
    assert((f + 1) * (2 * ch) <= n * 2 * ch) by (nonlinear_arith)
        requires
            f + 1 <= n,
    ;
    assert((n * 2 * ch) as int / (2 * ch) as int == n) by {
        assert(n * 2 * ch == (2 * ch) * n) by (nonlinear_arith);
        vstd::arithmetic::div_mod::lemma_div_multiples_vanish(n as int, (2 * ch) as int);
    }
    crate::dop::law_words_are_whole_frames(spec.fmt, ch, dsd, false);
    crate::dop::law_markers_alternate(spec.fmt, ch, dsd, false, f, c);
    crate::dop::law_words_carry_the_stream(spec.fmt, ch, dsd, false, f, c);
    assert(0 <= f * (2 * ch) && f * (2 * ch) + ch + c < n * 2 * ch) by (nonlinear_arith)
        requires
            f + 1 <= n,
            c < ch,
    ;
    let w: int = if spec.fmt == AlsaFmt::S32 {
        4
    } else {
        3
    };
    assert(n * (spec.fmt.sample_bytes() * ch) == n * ch * w) by (nonlinear_arith)
        requires
            spec.fmt.sample_bytes() == w,
    ;
    assert(f * ch + c + 1 <= n * ch) by (nonlinear_arith)
        requires
            f + 1 <= n,
            c + 1 <= ch,
    ;
    assert((f * ch + c) * w + w <= n * ch * w) by (nonlinear_arith)
        requires
            f * ch + c + 1 <= n * ch,
            w > 0,
    ;
}

/// A re-initialised device is primed with silence for the guard's time, counted in whole
/// milliseconds of the rate.
pub proof fn law_priming_lasts_the_guard_time(s: AlsaSink, v: Vec<u8>, i: int)
    requires
        call_ensures(AlsaSink::prime_reinit_silence, (&s,), v),
        playable(s.stream()),
        s.stream().rate as nat / 1000 * 48 * s.stream().frame_bytes() <= usize::MAX,
    ensures
        v@ == silence(s.stream(), s.stream().rate as nat / 1000 * 48),
        !s.stream().is_dop ==> v@.len() == s.stream().rate as nat / 1000 * 48
            * s.stream().frame_bytes(),
        !s.stream().is_dop && 0 <= i < v@.len() ==> v@[i] == 0,
{
}

/// A transfer goes on where the device stopped, and is over when all bytes went through.
pub proof fn law_transfer_moves_every_byte(
    len: usize,
    unit: usize,
    t: Transfer,
    x: &mut Transfer,
    frames: usize,
    u: (),
    p: Option<usize>,
)
    requires
        call_ensures(Transfer::new, (len, unit), t),
        call_ensures(Transfer::moved, (x, frames), u),
        call_ensures(Transfer::pending, (&*old(x),), p),
        old(x).wf(),
        old(x).off + frames * old(x).unit <= old(x).len,
    ensures
        t.len == len && t.unit == unit && t.off == 0,
        final(x).off == old(x).off + frames * old(x).unit,
        final(x).len == old(x).len && final(x).unit == old(x).unit,
        p is None <==> old(x).off >= old(x).len,
        p matches Some(at) ==> at == old(x).off,
{
}

} // verus!
