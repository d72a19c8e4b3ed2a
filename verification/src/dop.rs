//! DSD over PCM: sixteen DSD bits per channel ride in each 24-bit PCM word, under a
//! marker byte that alternates from frame to frame.
use crate::format::AlsaFmt;
use vstd::prelude::*;

verus! {

pub const DOP_MARKER_A: u8 = 0x05;

pub const DOP_MARKER_B: u8 = 0xFA;

/// A DSD byte that sounds as silence.
pub const DSD_SILENCE: u8 = 0x69;

/// The marker of a frame, given the phase it falls on.
pub open spec fn marker(phase_b: bool) -> u8 {
    if phase_b {
        DOP_MARKER_B
    } else {
        DOP_MARKER_A
    }
}

/// One DoP frame. `dsd` holds the older byte of every channel, then the newer byte of
/// every channel; each channel's word is newer, older, marker, from the low byte up.
pub open spec fn dop_frame(fmt: AlsaFmt, ch: nat, dsd: Seq<u8>, phase_b: bool) -> Seq<u8> {
    match fmt {
        AlsaFmt::S32 => Seq::new(
            4 * ch,
            |i: int|
                if i % 4 == 0 {
                    0u8
                } else if i % 4 == 1 {
                    dsd[ch + i / 4]
                } else if i % 4 == 2 {
                    dsd[i / 4]
                } else {
                    marker(phase_b)
                },
        ),
        _ => Seq::new(
            3 * ch,
            |i: int|
                if i % 3 == 0 {
                    dsd[ch + i / 3]
                } else if i % 3 == 1 {
                    dsd[i / 3]
                } else {
                    marker(phase_b)
                },
        ),
    }
}

/// The DoP words of the whole frames at the start of `dsd`.
pub open spec fn dop_words(fmt: AlsaFmt, ch: nat, dsd: Seq<u8>, phase_b: bool) -> Seq<u8>
    decreases dsd.len(),
{
    if ch == 0 || dsd.len() < 2 * ch {
        Seq::empty()
    } else {
        dop_frame(fmt, ch, dsd.take(2 * ch as int), phase_b) + dop_words(
            fmt,
            ch,
            dsd.skip(2 * ch as int),
            !phase_b,
        )
    }
}

/// The bytes of `dsd` behind its last whole frame.
pub open spec fn dop_rest(ch: nat, dsd: Seq<u8>) -> Seq<u8>
    decreases dsd.len(),
{
    if ch == 0 || dsd.len() < 2 * ch {
        dsd
    } else {
        dop_rest(ch, dsd.skip(2 * ch as int))
    }
}

/// The marker phase behind the last whole frame of `dsd`.
pub open spec fn dop_phase(ch: nat, dsd: Seq<u8>, phase_b: bool) -> bool
    decreases dsd.len(),
{
    if ch == 0 || dsd.len() < 2 * ch {
        phase_b
    } else {
        dop_phase(ch, dsd.skip(2 * ch as int), !phase_b)
    }
}

/// Turns a DSD byte stream into DoP words, keeping an unfinished frame between calls.
pub struct DopPacker {
    fmt: AlsaFmt,
    channels: usize,
    marker_b: bool,
    carry: Vec<u8>,
    out: Vec<u8>,
}

impl DopPacker {
    pub closed spec fn fmt(self) -> AlsaFmt {
        self.fmt
    }

    pub closed spec fn ch(self) -> nat {
        self.channels as nat
    }

    /// The next frame takes the second marker.
    pub closed spec fn phase_b(self) -> bool {
        self.marker_b
    }

    /// The bytes of the unfinished frame.
    pub closed spec fn carried(self) -> Seq<u8> {
        self.carry@
    }

    pub open spec fn wf(self) -> bool {
        &&& self.fmt() != AlsaFmt::S16
        &&& 0 < self.ch()
        &&& 2 * self.ch() <= usize::MAX
        &&& self.carried().len() < 2 * self.ch()
    }

    /// A packer at the start of a stream. DoP needs a 24- or 32-bit container.
    pub fn new(fmt: AlsaFmt, channels: u32) -> (p: Self)
        requires
            fmt != AlsaFmt::S16,
            channels > 0,
            2 * channels <= usize::MAX,
        ensures
            p.wf(),
            p.fmt() == fmt,
            p.ch() == channels,
            p.phase_b() == false,
            p.carried() == Seq::<u8>::empty(),
    {
        DopPacker {
            fmt,
            channels: channels as usize,
            marker_b: false,
            carry: Vec::new(),
            out: Vec::new(),
        }
    }

    /// Back to the start of a stream: first marker, nothing carried.
    pub fn reset(&mut self)
        requires
            old(self).wf(),
        ensures
            final(self).wf(),
            final(self).fmt() == old(self).fmt(),
            final(self).ch() == old(self).ch(),
            final(self).phase_b() == false,
            final(self).carried() == Seq::<u8>::empty(),
    {
        self.marker_b = false;
        self.carry.clear();
    }

    fn frame_in(&self) -> (n: usize)
        requires
            self.wf(),
        ensures
            n == 2 * self.ch(),
    {
        2 * self.channels
    }

    /// Packs `dsd` behind what was carried over. Returns the words of every frame that is
    /// now whole; the rest is kept for the next call.
    pub fn pack(&mut self, dsd: &[u8]) -> (r: &[u8])
        requires
            old(self).wf(),
        ensures
            r@ == dop_words(
                old(self).fmt(),
                old(self).ch(),
                old(self).carried() + dsd@,
                old(self).phase_b(),
            ),
            final(self).wf(),
            final(self).fmt() == old(self).fmt(),
            final(self).ch() == old(self).ch(),
            final(self).carried() == dop_rest(old(self).ch(), old(self).carried() + dsd@),
            final(self).phase_b() == dop_phase(
                old(self).ch(),
                old(self).carried() + dsd@,
                old(self).phase_b(),
            ),
    {
        self.out.clear();
        let frame_in: usize = self.frame_in();
        let ghost stream = self.carry@ + dsd@;
        let ghost ch = self.ch();
        let mut pos: usize = 0;
        if self.carry.len() > 0 {
            let need: usize = frame_in - self.carry.len();
            if dsd.len() < need {
                self.carry.extend_from_slice(dsd);
                assert(self.carry@ =~= stream);
                return self.out.as_slice();
            }
            let mut frame: Vec<u8> = Vec::new();
            std::mem::swap(&mut frame, &mut self.carry);
            let head = vstd::slice::slice_subrange(dsd, 0, need);
            frame.extend_from_slice(head);
            assert(frame@ =~= stream.take(2 * ch as int));
            self.emit_frame(frame.as_slice());
            pos = need;
            assert(stream.skip(2 * ch as int) =~= dsd@.skip(pos as int));
        } else {
            assert(stream =~= dsd@.skip(0));
        }
        while dsd.len() - pos >= frame_in
            invariant
                pos <= dsd@.len(),
                frame_in == 2 * ch,
                ch == self.ch(),
                0 < ch,
                self.fmt == old(self).fmt,
                self.fmt != AlsaFmt::S16,
                self.channels == old(self).channels,
                self.carry@.len() == 0,
                dop_words(self.fmt, ch, stream, old(self).marker_b) == self.out@ + dop_words(
                    self.fmt,
                    ch,
                    dsd@.skip(pos as int),
                    self.marker_b,
                ),
                dop_rest(ch, stream) == dop_rest(ch, dsd@.skip(pos as int)),
                dop_phase(ch, stream, old(self).marker_b) == dop_phase(
                    ch,
                    dsd@.skip(pos as int),
                    self.marker_b,
                ),
            decreases dsd@.len() - pos,
        {
            let ghost tail = dsd@.skip(pos as int);
            let ghost out0 = self.out@;
            let ghost ph = self.marker_b;
            let frame = vstd::slice::slice_subrange(dsd, pos, pos + frame_in);
            assert(frame@ =~= tail.take(2 * ch as int));
            self.emit_frame(frame);
            assert(tail.skip(2 * ch as int) =~= dsd@.skip(pos + frame_in));
            pos = pos + frame_in;
            assert(out0 + (dop_frame(self.fmt, ch, frame@, ph) + dop_words(
                self.fmt,
                ch,
                dsd@.skip(pos as int),
                !ph,
            )) =~= self.out@ + dop_words(self.fmt, ch, dsd@.skip(pos as int), self.marker_b));
        }
        assert(self.out@ + Seq::<u8>::empty() =~= self.out@);
        if pos < dsd.len() {
            let rest = vstd::slice::slice_subrange(dsd, pos, dsd.len());
            self.carry.extend_from_slice(rest);
        }
        assert(self.carry@ =~= dsd@.skip(pos as int));
        self.out.as_slice()
    }

    fn emit_frame(&mut self, frame: &[u8])
        requires
            old(self).fmt != AlsaFmt::S16,
            0 < old(self).channels,
            frame@.len() == 2 * old(self).channels,
        ensures
            final(self).out@ == old(self).out@ + dop_frame(
                old(self).fmt,
                old(self).channels as nat,
                frame@,
                old(self).marker_b,
            ),
            final(self).marker_b == !old(self).marker_b,
            final(self).fmt == old(self).fmt,
            final(self).channels == old(self).channels,
            final(self).carry == old(self).carry,
    {
        let n: usize = self.channels;
        let m: u8 = if self.marker_b {
            DOP_MARKER_B
        } else {
            DOP_MARKER_A
        };
        let ghost out0 = self.out@;
        let ghost words = dop_frame(self.fmt, n as nat, frame@, self.marker_b);
        let ghost w: int = if self.fmt == AlsaFmt::S32 {
            4
        } else {
            3
        };
        for c in 0..n
            invariant
                n == self.channels,
                frame@.len() == 2 * n,
                self.fmt == old(self).fmt,
                self.channels == old(self).channels,
                self.marker_b == old(self).marker_b,
                self.carry == old(self).carry,
                self.fmt != AlsaFmt::S16,
                m == marker(self.marker_b),
                w == (if self.fmt == AlsaFmt::S32 {
                    4int
                } else {
                    3int
                }),
                words == dop_frame(self.fmt, n as nat, frame@, self.marker_b),
                self.out@ == out0 + words.take(w * c),
        {
            let older: u8 = frame[c];
            let newer: u8 = frame[n + c];
            if let AlsaFmt::S32 = self.fmt {
                self.out.push(0);
            }
            self.out.push(newer);
            self.out.push(older);
            self.out.push(m);
            assert(self.out@ =~= out0 + words.take(w * (c + 1)));
        }
        assert(words.take(w * n) =~= words);
        self.marker_b = !self.marker_b;
    }
}

/// DoP words for `frames` frames of silence, starting on the first marker.
pub fn dop_silence(fmt: AlsaFmt, channels: u32, frames: usize) -> (v: Vec<u8>)
    requires
        fmt != AlsaFmt::S16,
        channels > 0,
        2 * channels <= usize::MAX,
        frames * 2 * channels <= usize::MAX,
    ensures
        v@ == dop_words(fmt, channels as nat, silence_bytes(channels as nat, frames as nat), false),
{
    let mut p = DopPacker::new(fmt, channels);
    assert(frames * 2 <= usize::MAX) by (nonlinear_arith)
        requires
            frames * 2 * channels <= usize::MAX,
            channels >= 1,
            frames >= 0,
    ;
    let dsd: Vec<u8> = vec![DSD_SILENCE; frames * 2 * channels as usize];
    let ghost s = silence_bytes(channels as nat, frames as nat);
    assert(dsd@ =~= s);
    assert(Seq::<u8>::empty() + s =~= s);
    let words = p.pack(dsd.as_slice());
    let mut v: Vec<u8> = Vec::new();
    v.extend_from_slice(words);
    assert(v@ =~= words@);
    v
}

/// The DSD bytes of `frames` frames of silence.
pub open spec fn silence_bytes(ch: nat, frames: nat) -> Seq<u8> {
    Seq::new(frames * 2 * ch, |i: int| DSD_SILENCE)
}

/// The DSD bytes that DoP words carry.
pub open spec fn dop_unpack(fmt: AlsaFmt, ch: nat, words: Seq<u8>) -> Seq<u8>
    decreases words.len(),
{
    let w: nat = if fmt == AlsaFmt::S32 {
        4
    } else {
        3
    };
    if ch == 0 || words.len() < w * ch {
        Seq::empty()
    } else {
        Seq::new(
            2 * ch,
            |p: int|
                if p < ch {
                    words[w * p + w - 2]
                } else {
                    words[w * (p - ch) + w - 3]
                },
        ) + dop_unpack(fmt, ch, words.skip((w * ch) as int))
    }
}

/// DoP is lossless: unpacking the words of a stream gives the stream back, up to the
/// unfinished frame that is still carried.
pub proof fn law_dop_is_lossless(fmt: AlsaFmt, ch: nat, dsd: Seq<u8>, phase_b: bool)
    requires
        fmt != AlsaFmt::S16,
        ch > 0,
    ensures
        dop_unpack(fmt, ch, dop_words(fmt, ch, dsd, phase_b)) + dop_rest(ch, dsd) == dsd,
    decreases dsd.len(),
{
    let w: nat = if fmt == AlsaFmt::S32 {
        4
    } else {
        3
    };
    let words = dop_words(fmt, ch, dsd, phase_b);
    if dsd.len() < 2 * ch {
        assert(words.len() == 0);
        assert(w * ch > 0) by (nonlinear_arith)
            requires
                w >= 3,
                ch > 0,
        ;
        assert(dop_unpack(fmt, ch, words) =~= Seq::empty());
        assert(Seq::<u8>::empty() + dsd =~= dsd);
    } else {
        let head = dsd.take(2 * ch as int);
        let tail = dsd.skip(2 * ch as int);
        let f = dop_frame(fmt, ch, head, phase_b);
        law_dop_is_lossless(fmt, ch, tail, !phase_b);
        assert(f.len() == w * ch);
        assert(words.skip((w * ch) as int) =~= dop_words(fmt, ch, tail, !phase_b));
        let got = Seq::new(
            2 * ch,
            |p: int|
                if p < ch {
                    words[w * p + w - 2]
                } else {
                    words[w * (p - ch) + w - 3]
                },
        );
        assert(got =~= head);
        assert(head + (dop_unpack(fmt, ch, dop_words(fmt, ch, tail, !phase_b)) + dop_rest(ch, tail))
            =~= dsd);
        assert((got + dop_unpack(fmt, ch, words.skip((w * ch) as int))) + dop_rest(ch, tail)
            =~= head + (dop_unpack(fmt, ch, dop_words(fmt, ch, tail, !phase_b)) + dop_rest(
            ch,
            tail,
        )));
    }
}

/// Where a stream is cut between two calls does not matter: packing it in two parts
/// gives the words, the carried rest and the marker phase of packing it at once.
pub proof fn law_split_calls_match_one_call(
    fmt: AlsaFmt,
    ch: nat,
    a: Seq<u8>,
    b: Seq<u8>,
    phase_b: bool,
)
    requires
        ch > 0,
    ensures
        dop_words(fmt, ch, a + b, phase_b) == dop_words(fmt, ch, a, phase_b) + dop_words(
            fmt,
            ch,
            dop_rest(ch, a) + b,
            dop_phase(ch, a, phase_b),
        ),
        dop_rest(ch, a + b) == dop_rest(ch, dop_rest(ch, a) + b),
        dop_phase(ch, a + b, phase_b) == dop_phase(
            ch,
            dop_rest(ch, a) + b,
            dop_phase(ch, a, phase_b),
        ),
    decreases a.len(),
{
    if a.len() < 2 * ch {
        assert(Seq::<u8>::empty() + dop_words(fmt, ch, a + b, phase_b) =~= dop_words(
            fmt,
            ch,
            a + b,
            phase_b,
        ));
    } else {
        let k = 2 * ch as int;
        law_split_calls_match_one_call(fmt, ch, a.skip(k), b, !phase_b);
        assert((a + b).take(k) =~= a.take(k));
        assert((a + b).skip(k) =~= a.skip(k) + b);
        let f = dop_frame(fmt, ch, a.take(k), phase_b);
        let t = dop_words(fmt, ch, a.skip(k), !phase_b);
        let u = dop_words(fmt, ch, dop_rest(ch, a) + b, dop_phase(ch, a, phase_b));
        assert(f + (t + u) =~= (f + t) + u);
    }
}

/// Markers alternate without a gap: frame `f` of a stream, in every channel, carries the
/// first marker if `f` is even and the second if it is odd (the other way round when the
/// stream starts on the second marker).
pub proof fn law_markers_alternate(
    fmt: AlsaFmt,
    ch: nat,
    dsd: Seq<u8>,
    phase_b: bool,
    f: nat,
    c: nat,
)
    requires
        fmt != AlsaFmt::S16,
        c < ch,
        (f + 1) * (2 * ch) <= dsd.len(),
    ensures
        ({
            let w: nat = if fmt == AlsaFmt::S32 {
                4
            } else {
                3
            };
            let at = (f * ch + c) * w + w - 1;
            &&& 0 <= at < dop_words(fmt, ch, dsd, phase_b).len()
            &&& dop_words(fmt, ch, dsd, phase_b)[at] == marker(phase_b != (f % 2 == 1))
        }),
    decreases f,
{
    let w: nat = if fmt == AlsaFmt::S32 {
        4
    } else {
        3
    };
    let k = 2 * ch as int;
    assert(dsd.len() >= 2 * ch) by (nonlinear_arith)
        requires
            (f + 1) * (2 * ch) <= dsd.len(),
            f >= 0,
            ch >= 0,
    ;
    let head = dop_frame(fmt, ch, dsd.take(k), phase_b);
    let tail = dop_words(fmt, ch, dsd.skip(k), !phase_b);
    let at = (f * ch + c) * w + w - 1;
    assert(head.len() == w * ch);
    if f == 0 {
        assert(at == c * w + w - 1) by (nonlinear_arith)
            requires
                at == (f * ch + c) * w + w - 1,
                f == 0,
        ;
        assert(at < w * ch) by (nonlinear_arith)
            requires
                at == c * w + w - 1,
                c + 1 <= ch,
                w >= 0,
        ;
        assert(head[at] == marker(phase_b));
    } else {
        let g = (f - 1) as nat;
        assert((g + 1) * (2 * ch) <= dsd.skip(k).len()) by (nonlinear_arith)
            requires
                (f + 1) * (2 * ch) <= dsd.len(),
                g == f - 1,
                dsd.skip(k).len() == dsd.len() - 2 * ch,
        ;
        law_markers_alternate(fmt, ch, dsd.skip(k), !phase_b, g, c);
        assert(at - w * ch == (g * ch + c) * w + w - 1) by (nonlinear_arith)
            requires
                at == (f * ch + c) * w + w - 1,
                g == f - 1,
        ;
        assert((head + tail)[at] == tail[at - w * ch]);
    }
}

/// An even number of frames leaves the marker phase and the frame boundary as they
/// were, so a stream behind an even stretch of silence is packed as if it came first.
pub proof fn law_even_silence_keeps_the_phase(fmt: AlsaFmt, ch: nat, frames: nat, s: Seq<u8>)
    requires
        ch > 0,
        frames % 2 == 0,
    ensures
        dop_phase(ch, silence_bytes(ch, frames), false) == false,
        dop_rest(ch, silence_bytes(ch, frames)) == Seq::<u8>::empty(),
        dop_words(fmt, ch, silence_bytes(ch, frames) + s, false) == dop_words(
            fmt,
            ch,
            silence_bytes(ch, frames),
            false,
        ) + dop_words(fmt, ch, s, false),
    decreases frames,
{
    lemma_silence_phase(ch, frames);
    let z = silence_bytes(ch, frames);
    law_split_calls_match_one_call(fmt, ch, z, s, false);
    assert(Seq::<u8>::empty() + s =~= s);
}

proof fn lemma_silence_phase(ch: nat, frames: nat)
    requires
        ch > 0,
        frames % 2 == 0,
    ensures
        dop_phase(ch, silence_bytes(ch, frames), false) == false,
        dop_rest(ch, silence_bytes(ch, frames)) == Seq::<u8>::empty(),
    decreases frames,
{
    let z = silence_bytes(ch, frames);
    if frames == 0 {
        assert(z =~= Seq::empty()) by {
            assert(frames * 2 * ch == 0) by (nonlinear_arith)
                requires
                    frames == 0,
            ;
        }
    } else {
        let g = (frames - 2) as nat;
        lemma_silence_phase(ch, g);
        let k = 2 * ch as int;
        assert(frames * 2 * ch == g * 2 * ch + 4 * ch) by (nonlinear_arith)
            requires
                g == frames - 2,
        ;
        assert(g * 2 * ch >= 0) by (nonlinear_arith)
            requires
                g >= 0,
                ch >= 0,
        ;
        assert(z.skip(k).skip(k) =~= silence_bytes(ch, g));
        reveal_with_fuel(dop_phase, 3);
        reveal_with_fuel(dop_rest, 3);
    }
}

/// The words come in whole frames: two input bytes per channel become one wire frame.
pub proof fn law_words_are_whole_frames(fmt: AlsaFmt, ch: nat, dsd: Seq<u8>, phase_b: bool)
    requires
        fmt != AlsaFmt::S16,
        ch > 0,
    ensures
        dop_words(fmt, ch, dsd, phase_b).len() == (dsd.len() / (2 * ch)) * (fmt.sample_bytes() * ch),
        dop_rest(ch, dsd).len() == dsd.len() % (2 * ch),
    decreases dsd.len(),
{
    let d = 2 * ch as int;
    let n = dsd.len() as int;
    if n < d {
        assert(n / d == 0 && n % d == n) by (nonlinear_arith)
            requires
                0 <= n < d,
        ;
        assert(0 * (fmt.sample_bytes() * ch) == 0) by (nonlinear_arith);
    } else {
        law_words_are_whole_frames(fmt, ch, dsd.skip(d), !phase_b);
        assert(n / d == (n - d) / d + 1 && n % d == (n - d) % d) by (nonlinear_arith)
            requires
                n >= d,
                d > 0,
        ;
        let q = (n - d) / d;
        let fb = (fmt.sample_bytes() * ch) as int;
        assert((q + 1) * fb == q * fb + fb) by (nonlinear_arith);
        assert(dop_frame(fmt, ch, dsd.take(d), phase_b).len() == fb);
    }
}

/// The words carry the stream: in frame `f`, channel `c`, the older byte of the channel stands
/// under the marker and the newer one below it; a fourth byte at the bottom is zero.
pub proof fn law_words_carry_the_stream(
    fmt: AlsaFmt,
    ch: nat,
    dsd: Seq<u8>,
    phase_b: bool,
    f: nat,
    c: nat,
)
    requires
        fmt != AlsaFmt::S16,
        c < ch,
        (f + 1) * (2 * ch) <= dsd.len(),
    ensures
        ({
            let w: nat = if fmt == AlsaFmt::S32 {
                4
            } else {
                3
            };
            let at = (f * ch + c) * w;
            let words = dop_words(fmt, ch, dsd, phase_b);
            &&& 0 <= at && at + w <= words.len()
            &&& words[at + w - 2] == dsd[(f * (2 * ch) + c) as int]
            &&& words[at + w - 3] == dsd[(f * (2 * ch) + ch + c) as int]
            &&& w == 4 ==> words[at as int] == 0
        }),
    decreases f,
{
    let w: nat = if fmt == AlsaFmt::S32 {
        4
    } else {
        3
    };
    let n = 2 * ch as int;
    assert(2 * ch <= dsd.len()) by (nonlinear_arith)
        requires
            (f + 1) * (2 * ch) <= dsd.len(),
            f >= 0,
            ch >= 0,
    ;
    let head = dop_frame(fmt, ch, dsd.take(n), phase_b);
    let rest = dop_words(fmt, ch, dsd.skip(n), !phase_b);
    assert(head.len() == w * ch);
    let words = dop_words(fmt, ch, dsd, phase_b);
    assert(words == head + rest);
    if f == 0 {
        assert((0 * ch + c) * w == c * w);
        assert(c * w + w <= w * ch) by (nonlinear_arith)
            requires
                c + 1 <= ch,
        ;
        if w == 4 {
            let i = c as int;
            assert((4 * i + 2) / 4 == i && (4 * i + 2) % 4 == 2);
            assert((4 * i + 1) / 4 == i && (4 * i + 1) % 4 == 1);
            assert((4 * i) / 4 == i && (4 * i) % 4 == 0);
            assert(c * w == 4 * i);
            assert(words[4 * i + 2] == head[4 * i + 2]);
            assert(words[4 * i + 1] == head[4 * i + 1]);
            assert(words[4 * i] == head[4 * i]);
            assert(head[4 * i + 2] == dsd.take(n)[i]);
            assert(head[4 * i + 1] == dsd.take(n)[ch + i]);
        } else {
            let i = c as int;
            assert((3 * i + 1) / 3 == i && (3 * i + 1) % 3 == 1);
            assert((3 * i) / 3 == i && (3 * i) % 3 == 0);
            assert(c * w == 3 * i);
            assert(words[3 * i + 1] == head[3 * i + 1]);
            assert(words[3 * i] == head[3 * i]);
            assert(head[3 * i + 1] == dsd.take(n)[i]);
            assert(head[3 * i] == dsd.take(n)[ch + i]);
        }
        assert(0 * (2 * ch) == 0);
    } else {
        let g = (f - 1) as nat;
        let tail = dsd.skip(n);
        assert((g + 1) * (2 * ch) <= tail.len()) by (nonlinear_arith)
            requires
                (f + 1) * (2 * ch) <= dsd.len(),
                tail.len() == dsd.len() - n,
                n == 2 * ch,
                f == g + 1,
        ;
        law_words_carry_the_stream(fmt, ch, tail, !phase_b, g, c);
        let at = (f * ch + c) * w;
        let to = (g * ch + c) * w;
        assert(at == to + w * ch) by (nonlinear_arith)
            requires
                at == (f * ch + c) * w,
                to == (g * ch + c) * w,
                f == g + 1,
        ;
        assert(words[at + w - 2] == rest[to + w - 2]);
        assert(words[at + w - 3] == rest[to + w - 3]);
        if w == 4 {
            assert(words[at as int] == rest[to as int]);
        }
        let a = (f * (2 * ch) + c) as int;
        let b = (g * (2 * ch) + c) as int;
        assert(a == b + n) by (nonlinear_arith)
            requires
                a == f * (2 * ch) + c,
                b == g * (2 * ch) + c,
                n == 2 * ch,
                f == g + 1,
        ;
        assert(b + ch < tail.len()) by (nonlinear_arith)
            requires
                (g + 1) * (2 * ch) <= tail.len(),
                b == g * (2 * ch) + c,
                c < ch,
        ;
        assert(b >= 0) by (nonlinear_arith)
            requires
                b == g * (2 * ch) + c,
                g >= 0,
                ch >= 0,
                c >= 0,
        ;
        assert(tail[b] == dsd[a]);
        assert(tail[b + ch] == dsd[a + ch]);
    }
}

/// A packer gives the words of every whole frame of what it holds and gets, and keeps the rest;
/// each frame takes the other marker. Nothing of the stream is lost or made up.
pub proof fn law_packer_keeps_the_stream(p: &mut DopPacker, dsd: &[u8], r: &[u8], f: nat, c: nat)
    requires
        call_ensures(DopPacker::pack, (p, dsd), r),
        old(p).wf(),
        c < old(p).ch(),
    ensures
        ({
            let all = old(p).carried() + dsd@;
            let ch = old(p).ch();
            let frames = all.len() / (2 * ch);
            let w: nat = if old(p).fmt() == AlsaFmt::S32 {
                4
            } else {
                3
            };
            let at = (f * ch + c) * w;
            &&& r@.len() == frames * (w * ch)
            &&& final(p).carried() == all.skip((2 * ch * frames) as int)
            &&& final(p).phase_b() == (old(p).phase_b() != (frames % 2 == 1))
            &&& final(p).ch() == ch && final(p).fmt() == old(p).fmt()
            &&& f < frames ==> {
                &&& 0 <= at && at + w <= r@.len()
                &&& r@[at + w - 2] == all[(f * (2 * ch) + c) as int]
                &&& r@[at + w - 3] == all[(f * (2 * ch) + ch + c) as int]
                &&& r@[at + w - 1] == (if old(p).phase_b() != (f % 2 == 1) {
                    0xFAu8
                } else {
                    0x05u8
                })
                &&& w == 4 ==> r@[at as int] == 0
            }
        }),
{
    let all = p.carried() + dsd@;
    let ch = p.ch();
    let frames = all.len() / (2 * ch);
    law_words_are_whole_frames(p.fmt(), ch, all, p.phase_b());
    lemma_rest_and_phase(ch, all, p.phase_b());
    if f < frames {
        vstd::arithmetic::div_mod::lemma_fundamental_div_mod(all.len() as int, (2 * ch) as int);
        assert((f + 1) * (2 * ch) <= all.len()) by (nonlinear_arith)
            requires
                f + 1 <= frames,
                all.len() >= 2 * ch * frames,
        ;
        law_words_carry_the_stream(p.fmt(), ch, all, p.phase_b(), f, c);
        law_markers_alternate(p.fmt(), ch, all, p.phase_b(), f, c);
    }
}

proof fn lemma_rest_and_phase(ch: nat, dsd: Seq<u8>, phase_b: bool)
    requires
        ch > 0,
    ensures
        dop_rest(ch, dsd) == dsd.skip((2 * ch * (dsd.len() / (2 * ch))) as int),
        0 <= 2 * ch * (dsd.len() / (2 * ch)) <= dsd.len(),
        dop_phase(ch, dsd, phase_b) == (phase_b != ((dsd.len() / (2 * ch)) % 2 == 1)),
    decreases dsd.len(),
{
    let n = (2 * ch) as int;
    let q = dsd.len() as int / n;
    vstd::arithmetic::div_mod::lemma_fundamental_div_mod(dsd.len() as int, n);
    if dsd.len() < n {
        vstd::arithmetic::div_mod::lemma_basic_div(dsd.len() as int, n);
        assert(n * 0 == 0);
        assert(dsd.skip(0) =~= dsd);
    } else {
        let t = dsd.skip(n);
        lemma_rest_and_phase(ch, t, !phase_b);
        vstd::arithmetic::div_mod::lemma_div_plus_one(t.len() as int, n);
        let r = t.len() as int / n;
        assert(q == r + 1);
        assert(n * q == n * r + n) by (nonlinear_arith)
            requires
                q == r + 1,
        ;
        assert(r >= 0) by (nonlinear_arith)
            requires
                r == t.len() as int / n,
                n > 0,
        ;
        assert(n * r >= 0) by (nonlinear_arith)
            requires
                n > 0,
                r >= 0,
        ;
        assert(t.skip(n * r) =~= dsd.skip(n * q));
        assert(2 * ch * (dsd.len() / (2 * ch)) == n * q);
        assert(2 * ch * (t.len() / (2 * ch)) == n * r);
    }
}

/// A new packer, and one that was reset, starts on the first marker with nothing carried.
pub proof fn law_packer_starts_on_the_first_marker(
    fmt: AlsaFmt,
    channels: u32,
    n: DopPacker,
    p: &mut DopPacker,
    u: (),
)
    requires
        call_ensures(DopPacker::new, (fmt, channels), n),
        call_ensures(DopPacker::reset, (p,), u),
        fmt != AlsaFmt::S16,
        channels > 0,
        2 * channels <= usize::MAX,
        old(p).wf(),
    ensures
        !n.phase_b() && n.carried().len() == 0 && n.fmt() == fmt && n.ch() == channels,
        !final(p).phase_b() && final(p).carried().len() == 0,
        final(p).fmt() == old(p).fmt() && final(p).ch() == old(p).ch(),
{
}

/// Silence carries the DSD silence pattern in every channel, under alternating markers.
pub proof fn law_silence_is_the_pattern(
    fmt: AlsaFmt,
    channels: u32,
    frames: usize,
    v: Vec<u8>,
    f: nat,
    c: nat,
)
    requires
        call_ensures(dop_silence, (fmt, channels, frames), v),
        fmt != AlsaFmt::S16,
        channels > 0,
        2 * channels <= usize::MAX,
        frames * 2 * channels <= usize::MAX,
        f < frames,
        c < channels,
    ensures
        ({
            let w: int = if fmt == AlsaFmt::S32 {
                4
            } else {
                3
            };
            let at = (f * channels + c) * w;
            &&& v@.len() == frames * (w * channels)
            &&& 0 <= at && at + w <= v@.len()
            &&& v@[at + w - 2] == 0x69
            &&& v@[at + w - 3] == 0x69
            &&& v@[at + w - 1] == (if f % 2 == 1 {
                0xFAu8
            } else {
                0x05u8
            })
        }),
{
    let ch = channels as nat;
    let n = frames as nat;
    let dsd = silence_bytes(ch, n);
    assert((f + 1) * (2 * ch) <= n * 2 * ch) by (nonlinear_arith)
        requires
            f + 1 <= n,
    ;
    assert((n * 2 * ch) as int / (2 * ch) as int == n) by {
        assert(n * 2 * ch == (2 * ch) * n) by (nonlinear_arith);
        vstd::arithmetic::div_mod::lemma_div_multiples_vanish(n as int, (2 * ch) as int);
    }
    law_words_are_whole_frames(fmt, ch, dsd, false);
    law_markers_alternate(fmt, ch, dsd, false, f, c);
    law_words_carry_the_stream(fmt, ch, dsd, false, f, c);
    assert(f * (2 * ch) + ch + c < n * 2 * ch) by (nonlinear_arith)
        requires
            f + 1 <= n,
            c < ch,
    ;
    assert(f * (2 * ch) >= 0) by (nonlinear_arith);
}

} // verus!
