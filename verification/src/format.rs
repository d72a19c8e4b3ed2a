//! Wire formats: how the samples of a stream are laid out for the device.
use vstd::prelude::*;

verus! {

/// The device-side sample formats the player writes. All are little-endian.
#[derive(Clone, Copy, Debug, PartialEq, Eq, Structural)]
pub enum AlsaFmt {
    /// 16-bit signed.
    S16,
    /// 24-bit signed in three packed bytes.
    S24_3,
    /// 32-bit signed.
    S32,
}

/// The device driver's name for a sample format.
#[derive(Clone, Copy, Debug, PartialEq, Eq, Structural)]
pub enum PcmFormat {
    S16LE,
    S243LE,
    S32LE,
}

impl AlsaFmt {
    /// Significant bits that one sample of this format can carry.
    pub open spec fn width(self) -> nat {
        match self {
            AlsaFmt::S16 => 16,
            AlsaFmt::S24_3 => 24,
            AlsaFmt::S32 => 32,
        }
    }

    /// Bytes that one sample of this format takes on the wire.
    pub open spec fn sample_bytes(self) -> nat {
        self.width() / 8
    }

    /// The narrowest format that holds `bits` significant bits (32-bit beyond that).
    pub open spec fn native(bits: nat) -> AlsaFmt {
        if bits <= 16 {
            AlsaFmt::S16
        } else if bits <= 24 {
            AlsaFmt::S24_3
        } else {
            AlsaFmt::S32
        }
    }

    /// The format that matches a source of `bits` significant bits.
    pub fn from_source_bits(bits: u32) -> (f: Self)
        ensures
            f == AlsaFmt::native(bits as nat),
    {
        if bits <= 16 {
            AlsaFmt::S16
        } else if bits <= 24 {
            AlsaFmt::S24_3
        } else {
            AlsaFmt::S32
        }
    }

    /// The driver's name for this format.
    pub fn to_alsa(self) -> (p: PcmFormat)
        ensures
            p == (match self {
                AlsaFmt::S16 => PcmFormat::S16LE,
                AlsaFmt::S24_3 => PcmFormat::S243LE,
                AlsaFmt::S32 => PcmFormat::S32LE,
            }),
    {
        match self {
            AlsaFmt::S16 => PcmFormat::S16LE,
            AlsaFmt::S24_3 => PcmFormat::S243LE,
            AlsaFmt::S32 => PcmFormat::S32LE,
        }
    }

    pub fn bytes_per_sample(self) -> (n: usize)
        ensures
            n == self.sample_bytes(),
            2 <= n <= 4,
    {
        match self {
            AlsaFmt::S16 => 2,
            AlsaFmt::S24_3 => 3,
            AlsaFmt::S32 => 4,
        }
    }

    pub fn output_bits(self) -> (n: u32)
        ensures
            n == self.width(),
    {
        match self {
            AlsaFmt::S16 => 16,
            AlsaFmt::S24_3 => 24,
            AlsaFmt::S32 => 32,
        }
    }

    pub fn label(self) -> (s: &'static str)
        ensures
            s@ == (match self {
                AlsaFmt::S16 => "S16_LE"@,
                AlsaFmt::S24_3 => "S24_3LE"@,
                AlsaFmt::S32 => "S32_LE"@,
            }),
    {
        match self {
            AlsaFmt::S16 => "S16_LE",
            AlsaFmt::S24_3 => "S24_3LE",
            AlsaFmt::S32 => "S32_LE",
        }
    }
}

/// Everything the device needs to know about a stream.
#[derive(Clone, Copy, Debug, PartialEq, Eq, Structural)]
pub struct StreamSpec {
    pub rate: u32,
    pub channels: u32,
    /// Significant bits of the source's samples.
    pub source_bits: u32,
    pub fmt: AlsaFmt,
    /// The samples are DoP words, not linear PCM.
    pub is_dop: bool,
}

/// Significant bits of a DoP word: a marker byte over sixteen DSD bits.
pub const DOP_BITS: u32 = 24;

impl StreamSpec {
    /// Bytes of one frame (one sample of every channel).
    pub open spec fn frame_bytes(self) -> nat {
        self.fmt.sample_bytes() * self.channels as nat
    }

    /// The two streams can share one open device.
    pub open spec fn wire_eq(self, other: StreamSpec) -> bool {
        self.rate == other.rate && self.channels == other.channels && self.fmt == other.fmt
    }

    /// A linear PCM stream in its native format.
    pub fn new(rate: u32, channels: u32, source_bits: u32) -> (s: Self)
        ensures
            s == (StreamSpec {
                rate,
                channels,
                source_bits,
                fmt: AlsaFmt::native(source_bits as nat),
                is_dop: false,
            }),
    {
        StreamSpec {
            rate,
            channels,
            source_bits,
            fmt: AlsaFmt::from_source_bits(source_bits),
            is_dop: false,
        }
    }

    /// A DSD stream carried as DoP words in `fmt`.
    pub fn dop(rate: u32, channels: u32, fmt: AlsaFmt) -> (s: Self)
        ensures
            s == (StreamSpec { rate, channels, source_bits: DOP_BITS, fmt, is_dop: true }),
    {
        StreamSpec { rate, channels, source_bits: DOP_BITS, fmt, is_dop: true }
    }

    pub fn bytes_per_frame(&self) -> (n: usize)
        requires
            self.frame_bytes() <= usize::MAX,
        ensures
            n == self.frame_bytes(),
    {
        self.fmt.bytes_per_sample() * self.channels as usize
    }

    /// Whether the device can keep running from one stream to the other.
    pub fn same_wire(&self, other: &StreamSpec) -> (b: bool)
        ensures
            b == self.wire_eq(*other),
    {
        self.rate == other.rate && self.channels == other.channels && self.fmt == other.fmt
    }
}

/// Sharing a wire is an equivalence between streams.
pub proof fn law_same_wire_is_an_equivalence(a: StreamSpec, b: StreamSpec, c: StreamSpec)
    ensures
        a.wire_eq(a),
        a.wire_eq(b) ==> b.wire_eq(a),
        a.wire_eq(b) && b.wire_eq(c) ==> a.wire_eq(c),
        a.wire_eq(b) ==> a.frame_bytes() == b.frame_bytes(),
{
}

/// The sample formats that a device accepts.
#[derive(Clone, Copy, Debug, PartialEq, Eq, Structural)]
pub struct DeviceFormats {
    pub s16: bool,
    pub s24_3: bool,
    pub s32: bool,
}

impl DeviceFormats {
    pub open spec fn has(self, f: AlsaFmt) -> bool {
        match f {
            AlsaFmt::S16 => self.s16,
            AlsaFmt::S24_3 => self.s24_3,
            AlsaFmt::S32 => self.s32,
        }
    }

    /// `f` is accepted by the device and holds every bit of a `bits`-bit source.
    pub open spec fn carries(self, bits: nat, f: AlsaFmt) -> bool {
        self.has(f) && f.width() >= AlsaFmt::native(bits).width()
    }

    pub fn all() -> (d: Self)
        ensures
            d == (DeviceFormats { s16: true, s24_3: true, s32: true }),
    {
        DeviceFormats { s16: true, s24_3: true, s32: true }
    }

    pub fn supports(&self, f: AlsaFmt) -> (b: bool)
        ensures
            b == self.has(f),
    {
        match f {
            AlsaFmt::S16 => self.s16,
            AlsaFmt::S24_3 => self.s24_3,
            AlsaFmt::S32 => self.s32,
        }
    }

    /// The narrowest accepted format that holds the source, if there is one.
    pub fn choose_format(&self, source_bits: u32) -> (r: Option<AlsaFmt>)
        ensures
            r matches Some(f) ==> self.carries(source_bits as nat, f) && forall|g: AlsaFmt|
                self.carries(source_bits as nat, g) ==> f.width() <= #[trigger] g.width(),
            r is None <==> forall|g: AlsaFmt| !self.carries(source_bits as nat, g),
    {
        let want: u32 = AlsaFmt::from_source_bits(source_bits).output_bits();
        if want <= 16 && self.s16 {
            assert(self.carries(source_bits as nat, AlsaFmt::S16));
            return Some(AlsaFmt::S16);
        }
        if want <= 24 && self.s24_3 {
            assert(self.carries(source_bits as nat, AlsaFmt::S24_3));
            return Some(AlsaFmt::S24_3);
        }
        if self.s32 {
            assert(self.carries(source_bits as nat, AlsaFmt::S32));
            return Some(AlsaFmt::S32);
        }
        None
    }
}

/// A format the device was chosen for never truncates the source: it is at least as wide
/// as the source's own format, and it is that format whenever the device accepts it.
pub proof fn law_choice_never_narrows(d: DeviceFormats, bits: nat, f: AlsaFmt)
    requires
        d.carries(bits, f),
        forall|g: AlsaFmt| d.carries(bits, g) ==> f.width() <= #[trigger] g.width(),
    ensures
        bits <= 32 ==> f.width() >= bits,
        d.has(AlsaFmt::native(bits)) ==> f == AlsaFmt::native(bits),
{
    let n = AlsaFmt::native(bits);
    if d.has(n) {
        assert(d.carries(bits, n));
        assert(f.width() <= n.width());
    }
}

/// A source gets the narrowest of the three formats that holds its bits: 16, 24, or 32 for
/// everything above.
pub proof fn law_source_gets_the_narrowest_format(bits: u32, f: AlsaFmt)
    requires
        call_ensures(AlsaFmt::from_source_bits, (bits,), f),
    ensures
        bits <= 16 <==> f == AlsaFmt::S16,
        16 < bits <= 24 <==> f == AlsaFmt::S24_3,
        bits > 24 <==> f == AlsaFmt::S32,
{
}

/// A sample takes as many bytes as its bits fill, and a frame one sample of every channel.
pub proof fn law_samples_take_their_bits(
    f: AlsaFmt,
    n: usize,
    bits: u32,
    s: StreamSpec,
    fb: usize,
)
    requires
        call_ensures(AlsaFmt::bytes_per_sample, (f,), n),
        call_ensures(AlsaFmt::output_bits, (f,), bits),
        call_ensures(StreamSpec::bytes_per_frame, (&s,), fb),
        s.frame_bytes() <= usize::MAX,
        s.fmt == f,
    ensures
        f == AlsaFmt::S16 ==> bits == 16,
        f == AlsaFmt::S24_3 ==> bits == 24,
        f == AlsaFmt::S32 ==> bits == 32,
        n * 8 == bits,
        fb == n * s.channels,
{
}

/// The driver's names and the labels tell the formats apart.
pub proof fn law_formats_have_their_names(f: AlsaFmt, p: PcmFormat, l: &str)
    requires
        call_ensures(AlsaFmt::to_alsa, (f,), p),
        call_ensures(AlsaFmt::label, (f,), l),
    ensures
        f == AlsaFmt::S16 <==> p == PcmFormat::S16LE,
        f == AlsaFmt::S24_3 <==> p == PcmFormat::S243LE,
        f == AlsaFmt::S32 <==> p == PcmFormat::S32LE,
        f == AlsaFmt::S16 ==> l@ == "S16_LE"@,
        f == AlsaFmt::S24_3 ==> l@ == "S24_3LE"@,
        f == AlsaFmt::S32 ==> l@ == "S32_LE"@,
{
}

/// A PCM stream is what was asked for, in the narrowest format for its bits; a DoP stream is
/// marked as one, has the given format, and counts 24 bits.
pub proof fn law_streams_are_as_described(
    rate: u32,
    channels: u32,
    bits: u32,
    fmt: AlsaFmt,
    pcm: StreamSpec,
    dop: StreamSpec,
)
    requires
        call_ensures(StreamSpec::new, (rate, channels, bits), pcm),
        call_ensures(StreamSpec::dop, (rate, channels, fmt), dop),
    ensures
        pcm.rate == rate && pcm.channels == channels && pcm.source_bits == bits && !pcm.is_dop,
        bits <= 16 ==> pcm.fmt == AlsaFmt::S16,
        16 < bits <= 24 ==> pcm.fmt == AlsaFmt::S24_3,
        bits > 24 ==> pcm.fmt == AlsaFmt::S32,
        dop.rate == rate && dop.channels == channels && dop.fmt == fmt && dop.is_dop,
        dop.source_bits == 24,
{
}

/// Two streams share a wire exactly if rate, channels and format are the same; bits of the
/// source and DoP make no difference.
pub proof fn law_same_wire_means_same_format(a: StreamSpec, b: StreamSpec, r: bool)
    requires
        call_ensures(StreamSpec::same_wire, (&a, &b), r),
    ensures
        r <==> a.rate == b.rate && a.channels == b.channels && a.fmt == b.fmt,
{
}

/// The format that is picked is the narrowest one the device accepts that holds every bit of
/// the source. None is picked only if there is none.
pub proof fn law_choice_is_the_narrowest(d: DeviceFormats, bits: u32, r: Option<AlsaFmt>)
    requires
        call_ensures(DeviceFormats::choose_format, (&d, bits), r),
    ensures
        r == (if bits <= 16 && d.s16 {
            Some(AlsaFmt::S16)
        } else if bits <= 24 && d.s24_3 {
            Some(AlsaFmt::S24_3)
        } else if d.s32 {
            Some(AlsaFmt::S32)
        } else {
            None
        }),
{
    let args = (&d, bits);
    let n = bits as nat;
    assert(d.carries(n, AlsaFmt::S16) <==> bits <= 16 && d.s16);
    assert(d.carries(n, AlsaFmt::S24_3) <==> bits <= 24 && d.s24_3);
    assert(d.carries(n, AlsaFmt::S32) <==> d.s32);
    assert(AlsaFmt::S16.width() == 16 && AlsaFmt::S24_3.width() == 24 && AlsaFmt::S32.width()
        == 32);
    assert(args.0.carries(args.1 as nat, AlsaFmt::S16) == d.carries(n, AlsaFmt::S16));
    assert(args.0.carries(args.1 as nat, AlsaFmt::S24_3) == d.carries(n, AlsaFmt::S24_3));
    assert(args.0.carries(args.1 as nat, AlsaFmt::S32) == d.carries(n, AlsaFmt::S32));
}

/// A device supports a format exactly if it is listed, and the full list holds all three.
pub proof fn law_supported_is_listed(d: DeviceFormats, f: AlsaFmt, b: bool, all: DeviceFormats)
    requires
        call_ensures(DeviceFormats::supports, (&d, f), b),
        call_ensures(DeviceFormats::all, (), all),
    ensures
        f == AlsaFmt::S16 ==> b == d.s16,
        f == AlsaFmt::S24_3 ==> b == d.s24_3,
        f == AlsaFmt::S32 ==> b == d.s32,
        all.s16 && all.s24_3 && all.s32,
{
}

} // verus!
