//! Full-scale decoded samples to wire bytes.
//!
//! The decoder hands out 32-bit samples with the source's bits at the top. Packing only
//! drops low bits that the wire format has no room for; it never rounds, scales or dithers.
use crate::format::AlsaFmt;
use vstd::prelude::*;

verus! {

/// The 16-bit value at the top of a full-scale sample.
pub open spec fn native16(s: i32) -> i16 {
    (s >> 16u32) as i16
}

/// Byte `k`, from the least significant, of a 16-bit sample.
pub open spec fn byte16(v: i16, k: int) -> u8 {
    if k == 0 {
        v as u8
    } else {
        (v >> 8u32) as u8
    }
}

/// Byte `k`, from the least significant, of a 32-bit value.
pub open spec fn byte32(v: i32, k: int) -> u8 {
    if k == 0 {
        v as u8
    } else if k == 1 {
        (v >> 8u32) as u8
    } else if k == 2 {
        (v >> 16u32) as u8
    } else {
        (v >> 24u32) as u8
    }
}

/// Byte `k` of the wire form of the full-scale sample `s`.
pub open spec fn wire_byte(fmt: AlsaFmt, s: i32, k: int) -> u8 {
    match fmt {
        AlsaFmt::S16 => byte16(native16(s), k),
        AlsaFmt::S24_3 => byte32(s >> 8u32, k),
        AlsaFmt::S32 => byte32(s, k),
    }
}

/// The wire form of a run of full-scale samples.
pub open spec fn wire_bytes(fmt: AlsaFmt, full: Seq<i32>) -> Seq<u8> {
    match fmt {
        AlsaFmt::S16 => Seq::new(2 * full.len(), |i: int| wire_byte(fmt, full[i / 2], i % 2)),
        AlsaFmt::S24_3 => Seq::new(3 * full.len(), |i: int| wire_byte(fmt, full[i / 3], i % 3)),
        AlsaFmt::S32 => Seq::new(4 * full.len(), |i: int| wire_byte(fmt, full[i / 4], i % 4)),
    }
}

/// Samples in the layout the device takes.
pub enum OutFrames<'a> {
    S16(&'a [i16]),
    S24(&'a [u8]),
    S32(&'a [i32]),
}

impl<'a> OutFrames<'a> {
    /// The little-endian bytes of the samples.
    pub open spec fn bytes(self) -> Seq<u8> {
        match self {
            OutFrames::S16(b) => Seq::new(2 * b@.len(), |i: int| byte16(b@[i / 2], i % 2)),
            OutFrames::S24(b) => b@,
            OutFrames::S32(b) => Seq::new(4 * b@.len(), |i: int| byte32(b@[i / 4], i % 4)),
        }
    }
}

/// Packs full-scale samples for one wire format, reusing its buffers.
pub struct Packer {
    fmt: AlsaFmt,
    s16: Vec<i16>,
    s24: Vec<u8>,
}

impl Packer {
    pub closed spec fn fmt(self) -> AlsaFmt {
        self.fmt
    }

    pub fn new(fmt: AlsaFmt) -> (p: Self)
        ensures
            p.fmt() == fmt,
    {
        Packer { fmt, s16: Vec::new(), s24: Vec::new() }
    }

    /// Packs a block of full-scale samples.
    pub fn pack<'a>(&'a mut self, full: &'a [i32]) -> (r: OutFrames<'a>)
        ensures
            r.bytes() == wire_bytes(old(self).fmt(), full@),
            match old(self).fmt() {
                AlsaFmt::S16 => r matches OutFrames::S16(b) && b@ == full@.map_values(
                    |s: i32| native16(s),
                ),
                AlsaFmt::S24_3 => r matches OutFrames::S24(b) && b@ == wire_bytes(
                    AlsaFmt::S24_3,
                    full@,
                ),
                AlsaFmt::S32 => r matches OutFrames::S32(b) && b@ == full@,
            },
            final(self).fmt() == old(self).fmt(),
    {
        match self.fmt {
            AlsaFmt::S16 => {
                self.s16.clear();
                for i in 0..full.len()
                    invariant
                        self.fmt == old(self).fmt,
                        self.s16@ == full@.take(i as int).map_values(|s: i32| native16(s)),
                {
                    let s: i32 = full[i];
                    self.s16.push(#[verifier::truncate] ((s >> 16u32) as i16));
                    assert(full@.take(i + 1).map_values(|s: i32| native16(s)) =~= full@.take(
                        i as int,
                    ).map_values(|s: i32| native16(s)).push(native16(s)));
                }
                assert(full@.take(full@.len() as int) =~= full@);
                let r = OutFrames::S16(self.s16.as_slice());
                assert(r.bytes() =~= wire_bytes(AlsaFmt::S16, full@));
                r
            },
            AlsaFmt::S24_3 => {
                self.s24.clear();
                for i in 0..full.len()
                    invariant
                        self.fmt == old(self).fmt,
                        self.s24@ == wire_bytes(AlsaFmt::S24_3, full@.take(i as int)),
                {
                    let s: i32 = full[i];
                    let v: i32 = s >> 8u32;
                    self.s24.push(#[verifier::truncate] (v as u8));
                    self.s24.push(#[verifier::truncate] ((v >> 8u32) as u8));
                    self.s24.push(#[verifier::truncate] ((v >> 16u32) as u8));
                    assert(self.s24@ =~= wire_bytes(AlsaFmt::S24_3, full@.take(i + 1)));
                }
                assert(full@.take(full@.len() as int) =~= full@);
                OutFrames::S24(self.s24.as_slice())
            },
            AlsaFmt::S32 => {
                let r = OutFrames::S32(full);
                assert(r.bytes() =~= wire_bytes(AlsaFmt::S32, full@));
                r
            },
        }
    }
}

/// Appends the little-endian bytes of `frames` to `out`.
pub fn append_bytes(out: &mut Vec<u8>, frames: &OutFrames)
    ensures
        final(out)@ == old(out)@ + frames.bytes(),
{
    match frames {
        OutFrames::S16(b) => {
            let ghost before = out@;
            for i in 0..b.len()
                invariant
                    *frames == OutFrames::S16(*b),
                    out@ == before + frames.bytes().take(2 * i),
            {
                let s: i16 = b[i];
                out.push(#[verifier::truncate] (s as u8));
                out.push(#[verifier::truncate] ((s >> 8u32) as u8));
                assert(out@ =~= before + frames.bytes().take(2 * (i + 1)));
            }
            assert(frames.bytes().take(2 * b@.len() as int) =~= frames.bytes());
        },
        OutFrames::S24(b) => {
            let ghost before = out@;
            out.extend_from_slice(b);
            assert(out@ =~= before + b@);
        },
        OutFrames::S32(b) => {
            let ghost before = out@;
            for i in 0..b.len()
                invariant
                    *frames == OutFrames::S32(*b),
                    out@ == before + frames.bytes().take(4 * i),
            {
                let s: i32 = b[i];
                out.push(#[verifier::truncate] (s as u8));
                out.push(#[verifier::truncate] ((s >> 8u32) as u8));
                out.push(#[verifier::truncate] ((s >> 16u32) as u8));
                out.push(#[verifier::truncate] ((s >> 24u32) as u8));
                assert(out@ =~= before + frames.bytes().take(4 * (i + 1)));
            }
            assert(frames.bytes().take(4 * b@.len() as int) =~= frames.bytes());
        },
    }
}

/// Samples are packed one by one: a run packs to what its parts pack to, one behind the
/// other.
pub proof fn law_packing_goes_by_sample(fmt: AlsaFmt, a: Seq<i32>, b: Seq<i32>)
    ensures
        wire_bytes(fmt, a + b) == wire_bytes(fmt, a) + wire_bytes(fmt, b),
{
    assert(wire_bytes(fmt, a + b) =~= wire_bytes(fmt, a) + wire_bytes(fmt, b));
}

/// The full-scale sample that the wire bytes of one sample stand for.
pub open spec fn rejoin(fmt: AlsaFmt, b0: u8, b1: u8, b2: u8, b3: u8) -> i32 {
    match fmt {
        AlsaFmt::S16 => ((b1 as i32) << 24u32) | ((b0 as i32) << 16u32),
        AlsaFmt::S24_3 => ((b2 as i32) << 24u32) | ((b1 as i32) << 16u32) | ((b0 as i32) << 8u32),
        AlsaFmt::S32 => ((b3 as i32) << 24u32) | ((b2 as i32) << 16u32) | ((b1 as i32) << 8u32) | (
        b0 as i32),
    }
}

/// The sample has no bits below those that `fmt` carries.
pub open spec fn fits(fmt: AlsaFmt, s: i32) -> bool {
    match fmt {
        AlsaFmt::S16 => s & 0xffff == 0,
        AlsaFmt::S24_3 => s & 0xff == 0,
        AlsaFmt::S32 => true,
    }
}

/// Packing is lossless: a sample whose bits fit the wire format is recovered exactly
/// from its wire bytes.
pub proof fn law_packing_is_lossless(fmt: AlsaFmt, s: i32)
    requires
        fits(fmt, s),
    ensures
        rejoin(
            fmt,
            wire_byte(fmt, s, 0),
            wire_byte(fmt, s, 1),
            wire_byte(fmt, s, 2),
            wire_byte(fmt, s, 3),
        ) == s,
{
    match fmt {
        AlsaFmt::S16 => {
            assert(s & 0xffff == 0 ==> (((((s >> 16u32) as i16) >> 8u32) as u8) as i32) << 24u32 | ((
            ((s >> 16u32) as i16) as u8) as i32) << 16u32 == s) by (bit_vector);
        },
        AlsaFmt::S24_3 => {
            assert(s & 0xff == 0 ==> ((((s >> 8u32) >> 16u32) as u8) as i32) << 24u32 | ((((s
                >> 8u32) >> 8u32) as u8) as i32) << 16u32 | (((s >> 8u32) as u8) as i32) << 8u32
                == s) by (bit_vector);
        },
        AlsaFmt::S32 => {
            assert((((s >> 24u32) as u8) as i32) << 24u32 | (((s >> 16u32) as u8) as i32) << 16u32
                | (((s >> 8u32) as u8) as i32) << 8u32 | ((s as u8) as i32) == s) by (bit_vector);
        },
    }
}

/// A format that the device was widened to loses nothing either: what fits a format
/// fits every wider one.
pub proof fn law_wider_formats_fit(narrow: AlsaFmt, wide: AlsaFmt, s: i32)
    requires
        fits(narrow, s),
        narrow.width() <= wide.width(),
    ensures
        fits(wide, s),
{
    assert(s & 0xffff == 0 ==> s & 0xff == 0) by (bit_vector);
}

/// A source value shifted up to full scale comes back as that value: 16-bit sources as
/// the 16-bit sample, 24-bit sources as the 24-bit value.
pub proof fn law_downshift_recovers_native(n16: i16, n24: i32)
    requires
        -0x80_0000 <= n24 < 0x80_0000,
    ensures
        native16((n16 as i32) << 16u32) == n16,
        (n24 << 8u32) >> 8u32 == n24,
{
    assert((((n16 as i32) << 16u32) >> 16u32) as i16 == n16) by (bit_vector);
    assert(-0x80_0000i32 <= n24 && n24 < 0x80_0000i32 ==> (n24 << 8u32) >> 8u32 == n24) by (bit_vector);
}

/// The wire form of a sample is its top bytes, from the low one up, and the samples follow
/// each other: nothing is put between them.
pub proof fn law_wire_bytes_are_the_top_bytes(fmt: AlsaFmt, full: Seq<i32>, i: int)
    requires
        0 <= i < full.len(),
    ensures
        match fmt {
            AlsaFmt::S16 => {
                &&& wire_bytes(fmt, full).len() == 2 * full.len()
                &&& wire_bytes(fmt, full)[2 * i] == (full[i] as u32 >> 16) as u8
                &&& wire_bytes(fmt, full)[2 * i + 1] == (full[i] as u32 >> 24) as u8
            },
            AlsaFmt::S24_3 => {
                &&& wire_bytes(fmt, full).len() == 3 * full.len()
                &&& wire_bytes(fmt, full)[3 * i] == (full[i] as u32 >> 8) as u8
                &&& wire_bytes(fmt, full)[3 * i + 1] == (full[i] as u32 >> 16) as u8
                &&& wire_bytes(fmt, full)[3 * i + 2] == (full[i] as u32 >> 24) as u8
            },
            AlsaFmt::S32 => {
                &&& wire_bytes(fmt, full).len() == 4 * full.len()
                &&& wire_bytes(fmt, full)[4 * i] == full[i] as u8
                &&& wire_bytes(fmt, full)[4 * i + 1] == (full[i] as u32 >> 8) as u8
                &&& wire_bytes(fmt, full)[4 * i + 2] == (full[i] as u32 >> 16) as u8
                &&& wire_bytes(fmt, full)[4 * i + 3] == (full[i] as u32 >> 24) as u8
            },
        },
{
    let s = full[i];
    match fmt {
        AlsaFmt::S16 => {
            assert(((s >> 16u32) as i16) as u8 == (s as u32 >> 16) as u8 && (((s >> 16u32) as i16)
                >> 8u32) as u8 == (s as u32 >> 24) as u8) by (bit_vector);
        },
        AlsaFmt::S24_3 => {
            assert((s >> 8u32) as u8 == (s as u32 >> 8) as u8 && ((s >> 8u32) >> 8u32) as u8 == (
            s as u32 >> 16) as u8 && ((s >> 8u32) >> 16u32) as u8 == (s as u32 >> 24) as u8)
                by (bit_vector);
        },
        AlsaFmt::S32 => {
            assert((s >> 8u32) as u8 == (s as u32 >> 8) as u8 && (s >> 16u32) as u8 == (s as u32
                >> 16) as u8 && (s >> 24u32) as u8 == (s as u32 >> 24) as u8) by (bit_vector);
        },
    }
}

/// A packer gives one sample for each it gets, in order: a 16-bit one is the sample without
/// its low half, a 32-bit one the sample itself, and 24-bit ones are three bytes each.
pub proof fn law_packer_keeps_every_sample<'a>(
    p: &'a mut Packer,
    full: &'a [i32],
    r: OutFrames<'a>,
    fmt: AlsaFmt,
    i: int,
)
    requires
        call_ensures(Packer::pack, (p, full), r),
        old(p).fmt() == fmt,
        0 <= i < full@.len(),
    ensures
        r is S16 <==> fmt == AlsaFmt::S16,
        r is S24 <==> fmt == AlsaFmt::S24_3,
        r is S32 <==> fmt == AlsaFmt::S32,
        r matches OutFrames::S16(b) ==> {
            &&& b@.len() == full@.len()
            &&& b@[i] * 0x1_0000 <= full@[i] < (b@[i] + 1) * 0x1_0000
        },
        r matches OutFrames::S24(b) ==> {
            &&& b@.len() == 3 * full@.len()
            &&& b@[3 * i] == (full@[i] as u32 >> 8) as u8
            &&& b@[3 * i + 1] == (full@[i] as u32 >> 16) as u8
            &&& b@[3 * i + 2] == (full@[i] as u32 >> 24) as u8
        },
        r matches OutFrames::S32(b) ==> b@ == full@,
        final(p).fmt() == fmt,
{
    law_wire_bytes_are_the_top_bytes(fmt, full@, i);
    let s = full@[i];
    assert(((s >> 16u32) as i16) * 0x1_0000i32 <= s && s < (((s >> 16u32) as i16) + 1)
        * 0x1_0000i32) by (bit_vector);
}

/// Appending leaves what is there and puts the bytes of the samples behind it, from the low
/// byte up.
pub proof fn law_append_goes_behind<'a>(out: &mut Vec<u8>, frames: &OutFrames<'a>, u: (), i: int)
    requires
        call_ensures(append_bytes, (out, frames), u),
        0 <= i,
    ensures
        i < old(out)@.len() ==> final(out)@[i] == old(out)@[i],
        *frames matches OutFrames::S16(b) ==> {
            &&& final(out)@.len() == old(out)@.len() + 2 * b@.len()
            &&& i < b@.len() ==> {
                &&& final(out)@[old(out)@.len() + 2 * i] == b@[i] as u8
                &&& final(out)@[old(out)@.len() + 2 * i + 1] == (b@[i] >> 8u32) as u8
            }
        },
        *frames matches OutFrames::S24(b) ==> final(out)@ == old(out)@ + b@,
        *frames matches OutFrames::S32(b) ==> {
            &&& final(out)@.len() == old(out)@.len() + 4 * b@.len()
            &&& i < b@.len() ==> {
                &&& final(out)@[old(out)@.len() + 4 * i] == b@[i] as u8
                &&& final(out)@[old(out)@.len() + 4 * i + 1] == (b@[i] >> 8u32) as u8
                &&& final(out)@[old(out)@.len() + 4 * i + 2] == (b@[i] >> 16u32) as u8
                &&& final(out)@[old(out)@.len() + 4 * i + 3] == (b@[i] >> 24u32) as u8
            }
        },
{
    let n = out@.len() as int;
    match *frames {
        OutFrames::S16(b) => {
            let s = frames.bytes();
            if i < b@.len() {
                assert(final(out)@[n + 2 * i] == s[2 * i]);
                assert(final(out)@[n + 2 * i + 1] == s[2 * i + 1]);
            }
        },
        OutFrames::S24(b) => {},
        OutFrames::S32(b) => {
            let s = frames.bytes();
            if i < b@.len() {
                assert(final(out)@[n + 4 * i] == s[4 * i]);
                assert(final(out)@[n + 4 * i + 1] == s[4 * i + 1]);
                assert(final(out)@[n + 4 * i + 2] == s[4 * i + 2]);
                assert(final(out)@[n + 4 * i + 3] == s[4 * i + 3]);
            }
        },
    }
}

/// A packer packs for the format it was made for.
pub proof fn law_packer_has_its_format(fmt: AlsaFmt, p: Packer)
    requires
        call_ensures(Packer::new, (fmt,), p),
    ensures
        p.fmt() == fmt,
{
}

} // verus!
