//! DSD files: what they hold and where each byte of the stream lies.
use crate::error::Error;
use crate::format::{AlsaFmt, StreamSpec};
use crate::paths::{extension, extension_of};
use crate::text::{decimal, lower, lower_of, push_decimal, spells, string_of};
use vstd::prelude::*;
use vstd::string::*;

verus! {

pub const DSD64_RATE: u32 = 2_822_400;

/// The parameters of a DSD stream.
#[derive(Clone, Copy, Debug, PartialEq, Eq, Structural)]
pub struct DsdSpec {
    /// One-bit samples per second and channel.
    pub dsd_rate: u32,
    pub channels: u32,
    /// Length in DoP frames (sixteen DSD bits per channel), where it is known.
    pub n_frames: Option<u64>,
}

impl DsdSpec {
    /// The PCM stream that carries this one as DoP: sixteen bits to a frame.
    pub fn dop_spec(&self, fmt: AlsaFmt) -> (s: StreamSpec)
        ensures
            s == (StreamSpec {
                rate: self.dsd_rate / 16,
                channels: self.channels,
                source_bits: crate::format::DOP_BITS,
                fmt,
                is_dop: true,
            }),
    {
        StreamSpec::dop(self.dsd_rate / 16, self.channels, fmt)
    }

    /// The rate as a multiple of the compact disc's; zero if it is none.
    pub open spec fn multiple(self) -> u32 {
        if self.dsd_rate % 44_100 == 0 {
            self.dsd_rate / 44_100
        } else {
            0
        }
    }

    pub fn dsd_multiple(&self) -> (n: u32)
        ensures
            n == self.multiple(),
    {
        if self.dsd_rate % 44_100 == 0 {
            self.dsd_rate / 44_100
        } else {
            0
        }
    }

    pub fn label(&self) -> (s: String)
        ensures
            s@ == "DSD"@ + decimal(self.multiple() as nat),
    {
        let mut s = String::from_str("DSD");
        push_decimal(&mut s, self.dsd_multiple() as u64);
        s
    }
}

/// What has to be opened for a DSD path.
#[derive(Clone, Copy, Debug, PartialEq, Eq, Structural)]
pub enum DsdOpen {
    Dsf,
    Dff,
    /// The track of a disc image, counted from zero.
    Sacd(usize),
}

/// The kinds of DSD file, by lower-case extension.
pub open spec fn dsd_kind(ext: Seq<char>, track: usize) -> Option<DsdOpen> {
    if ext == "dsf"@ {
        Some(DsdOpen::Dsf)
    } else if ext == "dff"@ {
        Some(DsdOpen::Dff)
    } else if ext == "iso"@ {
        Some(DsdOpen::Sacd(track))
    } else {
        None
    }
}

/// The extension in lower case; nothing where there is none.
pub open spec fn lower_ext(path: Seq<char>) -> Seq<char> {
    match extension(path) {
        Some(e) => lower(e),
        None => Seq::empty(),
    }
}

fn lower_ext_of(path: &str) -> (e: Vec<char>)
    ensures
        e@ == lower_ext(path@),
{
    match extension_of(path) {
        Some(e) => lower_of(e.as_slice()),
        None => Vec::new(),
    }
}

/// Decides by the extension how a DSD file is to be opened. Without a track number a disc
/// image plays its first track.
pub fn open_dsd(path: &str, track: Option<usize>) -> (r: Result<DsdOpen, Error>)
    ensures
        ({
            let e = lower_ext(path@);
            let t = match track {
                Some(t) => t,
                None => 0usize,
            };
            match dsd_kind(e, t) {
                Some(k) => r == Ok::<DsdOpen, Error>(k),
                None => r matches Err(Error::Unsupported(s)) && s@ == "not a DSD file: ."@ + e
                    + " ("@ + path@ + ")"@,
            }
        }),
{
    let e = lower_ext_of(path);
    proof {
        reveal_strlit("dsf");
        reveal_strlit("dff");
        reveal_strlit("iso");
        assert("dsf"@[0] == 'd' && "dsf"@[1] == 's');
        assert("dff"@[0] == 'd' && "dff"@[1] == 'f');
        assert("iso"@[0] == 'i');
    }
    if spells(e.as_slice(), "dsf") {
        return Ok(DsdOpen::Dsf);
    }
    if spells(e.as_slice(), "dff") {
        return Ok(DsdOpen::Dff);
    }
    if spells(e.as_slice(), "iso") {
        return Ok(DsdOpen::Sacd(match track {
            Some(t) => t,
            None => 0,
        }));
    }
    let mut s = String::from_str("not a DSD file: .");
    let ext = string_of(e.as_slice());
    s.append(ext.as_str());
    s.append(" (");
    s.append(path);
    s.append(")");
    Err(Error::Unsupported(s))
}

/// Whether a path names a DSD file.
pub fn is_dsd_path(path: &str) -> (b: bool)
    ensures
        b == (dsd_kind(lower_ext(path@), 0) is Some),
{
    let e = lower_ext_of(path);
    spells(e.as_slice(), "dsf") || spells(e.as_slice(), "dff") || spells(e.as_slice(), "iso")
}

/// A path is taken for DSD exactly when it can be opened as such.
pub proof fn law_dsd_paths_open(path: Seq<char>, t: usize)
    ensures
        dsd_kind(lower_ext(path), 0) is Some <==> dsd_kind(lower_ext(path), t) is Some,
{
}

/// How the bytes of the channels lie in the file.
#[derive(Clone, Copy, Debug, PartialEq, Eq, Structural)]
pub enum Container {
    /// Channels interleaved byte by byte, oldest bit first.
    Dff,
    /// Blocks of `block_size` bytes, one per channel in turn; `reverse` where the oldest
    /// bit is the lowest.
    Dsf { block_size: u32, reverse: bool },
}

/// The largest piece of an interleaved file that is read at a time.
pub const DFF_CHUNK: u64 = 65_536;

/// The bits of a byte in the opposite order.
pub open spec fn reversed(b: u8) -> u8 {
    ((b & 0x01) << 7u32) | ((b & 0x02) << 5u32) | ((b & 0x04) << 3u32) | ((b & 0x08) << 1u32) | ((b
        & 0x10) >> 1u32) | ((b & 0x20) >> 3u32) | ((b & 0x40) >> 5u32) | ((b & 0x80) >> 7u32)
}

fn reverse_bits(b: u8) -> (r: u8)
    ensures
        r == reversed(b),
{
    ((b & 0x01) << 7u32) | ((b & 0x02) << 5u32) | ((b & 0x04) << 3u32) | ((b & 0x08) << 1u32) | ((b
        & 0x10) >> 1u32) | ((b & 0x20) >> 3u32) | ((b & 0x40) >> 5u32) | ((b & 0x80) >> 7u32)
}

/// Reversing the bits of a byte twice gives it back.
pub proof fn law_reversal_undoes_itself(b: u8)
    ensures
        reversed(reversed(b)) == b,
{
    assert({
        let c = ((b & 0x01) << 7u32) | ((b & 0x02) << 5u32) | ((b & 0x04) << 3u32) | ((b & 0x08)
            << 1u32) | ((b & 0x10) >> 1u32) | ((b & 0x20) >> 3u32) | ((b & 0x40) >> 5u32) | ((b
            & 0x80) >> 7u32);
        ((c & 0x01) << 7u32) | ((c & 0x02) << 5u32) | ((c & 0x04) << 3u32) | ((c & 0x08) << 1u32)
            | ((c & 0x10) >> 1u32) | ((c & 0x20) >> 3u32) | ((c & 0x40) >> 5u32) | ((c & 0x80)
            >> 7u32) == b
    }) by (bit_vector);
}

/// A stream byte from a file byte.
pub open spec fn ordered(reverse: bool, b: u8) -> u8 {
    if reverse {
        reversed(b)
    } else {
        b
    }
}

/// Where the byte at place `p` of an interleaved block lies in the block as stored.
pub open spec fn stored_at(block_size: int, ch: int, p: int) -> int {
    (p % ch) * block_size + p / ch
}

/// The first `k` interleaved bytes of a stored block, as far as `got` reaches.
pub open spec fn interleave(got: Seq<u8>, block_size: int, ch: int, reverse: bool, k: nat) -> Seq<
    u8,
>
    decreases k,
{
    if k == 0 {
        Seq::empty()
    } else {
        let rest = interleave(got, block_size, ch, reverse, (k - 1) as nat);
        let at = stored_at(block_size, ch, k - 1);
        if at < got.len() {
            rest.push(ordered(reverse, got[at]))
        } else {
            rest
        }
    }
}

/// Byte `i` of channel `c` in audio that is stored in blocks, one channel after the other.
pub open spec fn channel_byte(data: Seq<u8>, block_size: int, ch: int, c: int, i: int) -> u8 {
    data[(i / block_size) * (block_size * ch) + c * block_size + i % block_size]
}

/// The stream of a block-wise file whose audio starts at `data`'s first byte: the channels
/// in turn, byte by byte.
pub open spec fn dsf_stream(data: Seq<u8>, block_size: int, ch: int, reverse: bool, total: nat) -> Seq<
    u8,
> {
    Seq::new(
        total,
        |q: int| ordered(reverse, channel_byte(data, block_size, ch, q % ch, q / ch)),
    )
}

/// A stretch of the file that is wanted next.
#[derive(Clone, Copy, Debug, PartialEq, Eq, Structural)]
pub struct ReadRequest {
    pub offset: u64,
    pub len: u64,
    /// Less than the whole stretch is an error; otherwise the file may end inside it.
    pub exact: bool,
}

/// A DSF or DFF file being read: its layout and the place in the stream.
#[derive(Clone, Copy, Debug, PartialEq, Eq, Structural)]
pub struct DsfDffSource {
    container: Container,
    data_offset: u64,
    channels: u32,
    spec: DsdSpec,
    valid_total: u64,
    pos: u64,
}

/// The audio bytes of a file: as many as it declares and holds, cut to whole rounds of the
/// channels.
pub open spec fn usable(declared: nat, offset: nat, file_len: nat, ch: nat) -> nat {
    let held: nat = if file_len >= offset {
        (file_len - offset) as nat
    } else {
        0
    };
    let m = if declared <= held {
        declared
    } else {
        held
    };
    (m - m % ch) as nat
}

impl DsfDffSource {
    pub closed spec fn layout(self) -> Container {
        self.container
    }

    pub closed spec fn data_start(self) -> nat {
        self.data_offset as nat
    }

    pub closed spec fn ch(self) -> nat {
        self.channels as nat
    }

    pub closed spec fn dsd_spec(self) -> DsdSpec {
        self.spec
    }

    /// Length of the stream in bytes.
    pub closed spec fn total(self) -> nat {
        self.valid_total as nat
    }

    /// Bytes of the stream that are behind.
    pub closed spec fn at(self) -> nat {
        self.pos as nat
    }

    /// Bytes of one round of blocks.
    pub open spec fn round(self) -> nat {
        match self.layout() {
            Container::Dsf { block_size, .. } => block_size as nat * self.ch(),
            Container::Dff => 0,
        }
    }

    pub open spec fn wf(self) -> bool {
        &&& self.ch() > 0
        &&& self.total() % self.ch() == 0
        &&& self.at() <= self.total()
        &&& self.total() > 0 ==> self.data_start() + self.total() <= u64::MAX
        &&& self.layout() is Dsf ==> 0 < self.round() <= usize::MAX
    }

    /// Where the part of the file that is needed next starts, and its length.
    pub open spec fn wanted(self) -> (int, int) {
        match self.layout() {
            Container::Dff => (
                (self.data_start() + self.at()) as int,
                if self.total() - self.at() <= DFF_CHUNK {
                    self.total() - self.at()
                } else {
                    DFF_CHUNK as int
                },
            ),
            Container::Dsf { .. } => (
                (self.data_start() + (self.at() / self.round()) * self.round()) as int,
                self.round() as int,
            ),
        }
    }

    /// The part of the stream that comes next, if the file gives `got` for what is wanted.
    pub open spec fn part(self, got: Seq<u8>) -> Seq<u8> {
        match self.layout() {
            Container::Dff => got,
            Container::Dsf { block_size, reverse } => {
                let start = (self.at() / self.round()) * self.round();
                let k = if self.total() - start <= self.round() {
                    (self.total() - start) as nat
                } else {
                    self.round()
                };
                let all = interleave(got, block_size as int, self.ch() as int, reverse, k);
                let skip = self.at() - start;
                if skip <= all.len() {
                    all.skip(skip)
                } else {
                    Seq::empty()
                }
            },
        }
    }

    /// This is the source after the file gave `got` and the stream went on by `out`. Where
    /// nothing came, the stream is over.
    pub open spec fn went_on(self, before: Self, got: Seq<u8>, out: Seq<u8>) -> bool {
        &&& self.same_file(before)
        &&& out == before.part(got)
        &&& self.at() == if out.len() > 0 {
            before.at() + out.len()
        } else {
            before.total()
        }
    }

    /// Nothing but the place in the stream differs.
    pub open spec fn same_file(self, other: Self) -> bool {
        &&& self.layout() == other.layout()
        &&& self.data_start() == other.data_start()
        &&& self.ch() == other.ch()
        &&& self.dsd_spec() == other.dsd_spec()
        &&& self.total() == other.total()
    }

    /// A block-wise file, from what its header says. `bits_per_sample` of one means that
    /// the oldest bit of a byte is the lowest.
    pub fn open_dsf(
        channels: u32,
        block_size: u32,
        bits_per_sample: u32,
        sample_count: u64,
        data_offset: u64,
        dsd_rate: u32,
        file_len: u64,
    ) -> (r: Result<Self, Error>)
        requires
            channels > 0 ==> 0 < block_size * channels <= usize::MAX,
        ensures
            channels == 0 <==> r is Err,
            r matches Err(e) ==> (e matches Error::Dsd(s) && s@ == "DSD file reports zero channels"@),
            r matches Ok(src) ==> {
                let declared = (sample_count / 8) * channels;
                src.wf() && src.opened(
                    Container::Dsf { block_size, reverse: bits_per_sample == 1 },
                    data_offset,
                    channels,
                    dsd_rate,
                    if declared <= u64::MAX {
                        declared as nat
                    } else {
                        u64::MAX as nat
                    },
                    file_len,
                )
            },
    {
        let declared: u64 = match (sample_count / 8).checked_mul(channels as u64) {
            Some(n) => n,
            None => u64::MAX,
        };
        let container = Container::Dsf { block_size, reverse: bits_per_sample == 1 };
        Self::finish(container, data_offset, channels, dsd_rate, declared, file_len)
    }

    /// An interleaved file, from what its header says.
    pub fn open_dff(
        channels: u32,
        data_offset: u64,
        audio_len: u64,
        dsd_rate: u32,
        file_len: u64,
    ) -> (r: Result<Self, Error>)
        ensures
            channels == 0 <==> r is Err,
            r matches Err(e) ==> (e matches Error::Dsd(s) && s@ == "DSD file reports zero channels"@),
            r matches Ok(src) ==> src.wf() && src.opened(
                Container::Dff,
                data_offset,
                channels,
                dsd_rate,
                audio_len as nat,
                file_len,
            ),
    {
        Self::finish(Container::Dff, data_offset, channels, dsd_rate, audio_len, file_len)
    }

    /// The state of a file that was just opened.
    pub open spec fn opened(
        self,
        container: Container,
        data_offset: u64,
        channels: u32,
        dsd_rate: u32,
        declared: nat,
        file_len: u64,
    ) -> bool {
        let total = usable(declared, data_offset as nat, file_len as nat, channels as nat);
        &&& self.layout() == container
        &&& self.data_start() == data_offset
        &&& self.ch() == channels
        &&& self.at() == 0
        &&& self.total() == total
        &&& self.dsd_spec() == (DsdSpec {
            dsd_rate,
            channels,
            n_frames: if total > 0 {
                Some((total / (2 * channels as nat)) as u64)
            } else {
                None
            },
        })
    }

    fn finish(
        container: Container,
        data_offset: u64,
        channels: u32,
        dsd_rate: u32,
        declared: u64,
        file_len: u64,
    ) -> (r: Result<Self, Error>)
        requires
            channels > 0 ==> (container matches Container::Dsf { block_size, .. } ==> 0 < block_size
                * channels <= usize::MAX),
        ensures
            channels == 0 <==> r is Err,
            r matches Err(e) ==> (e matches Error::Dsd(s) && s@ == "DSD file reports zero channels"@),
            r matches Ok(src) ==> src.wf() && src.opened(
                container,
                data_offset,
                channels,
                dsd_rate,
                declared as nat,
                file_len,
            ),
    {
        if channels == 0 {
            return Err(Error::Dsd(String::from_str("DSD file reports zero channels")));
        }
        let held: u64 = file_len.saturating_sub(data_offset);
        let m: u64 = if declared <= held {
            declared
        } else {
            held
        };
        let c: u64 = channels as u64;
        assert(m % c <= m) by (nonlinear_arith)
            requires
                c > 0,
                m >= 0,
        ;
        let valid_total: u64 = m - m % c;
        assert(valid_total % c == 0) by (nonlinear_arith)
            requires
                valid_total == m - m % c,
                c > 0,
        ;
        let n_frames: Option<u64> = if valid_total > 0 {
            Some(valid_total / (2 * c))
        } else {
            None
        };
        let spec = DsdSpec { dsd_rate, channels, n_frames };
        Ok(DsfDffSource { container, data_offset, channels, spec, valid_total, pos: 0 })
    }

    pub fn spec(&self) -> (s: DsdSpec)
        ensures
            s == self.dsd_spec(),
    {
        self.spec
    }

    /// The stretch of the file that the next part of the stream comes from; none at the
    /// end of the stream.
    pub fn read_request(&self) -> (r: Option<ReadRequest>)
        requires
            self.wf(),
        ensures
            r is None <==> self.at() >= self.total(),
            r matches Some(q) ==> {
                &&& q.offset == self.wanted().0
                &&& q.len == self.wanted().1
                &&& q.exact == (self.layout() is Dff)
            },
    {
        if self.pos >= self.valid_total {
            return None;
        }
        match self.container {
            Container::Dff => {
                let left: u64 = self.valid_total - self.pos;
                let len: u64 = if left <= DFF_CHUNK {
                    left
                } else {
                    DFF_CHUNK
                };
                Some(ReadRequest { offset: self.data_offset + self.pos, len, exact: true })
            },
            Container::Dsf { block_size, reverse } => {
                let round: u64 = self.round_bytes();
                let block: u64 = self.pos / round;
                proof {
                    lemma_block_start(self.pos as int, round as int);
                }
                Some(
                    ReadRequest {
                        offset: self.data_offset + block * round,
                        len: round,
                        exact: false,
                    },
                )
            },
        }
    }

    fn round_bytes(&self) -> (n: u64)
        requires
            self.wf(),
            self.layout() is Dsf,
        ensures
            n == self.round(),
    {
        match self.container {
            Container::Dsf { block_size, .. } => {
                assert(block_size as u64 * self.channels as u64 <= u64::MAX) by (nonlinear_arith)
                    requires
                        block_size <= u32::MAX,
                        self.channels <= u32::MAX,
                ;
                block_size as u64 * self.channels as u64
            },
            Container::Dff => 0,
        }
    }

    /// Takes what the file gave for the pending request and puts the next part of the
    /// stream into `out`. Returns whether there was any: there is none at the end of the
    /// stream, and a file that ends too early ends it.
    pub fn next(&mut self, got: &[u8], out: &mut Vec<u8>) -> (more: bool)
        requires
            old(self).wf(),
            old(self).at() < old(self).total() && old(self).layout() is Dff ==> got@.len() == old(
                self,
            ).wanted().1,
        ensures
            final(self).wf(),
            more == (final(out)@.len() > 0),
            if old(self).at() < old(self).total() {
                &&& final(self).went_on(*old(self), got@, final(out)@)
                &&& old(self).at() < final(self).at() <= old(self).total()
            } else {
                !more && *final(self) == *old(self)
            },
    {
        out.clear();
        if self.pos >= self.valid_total {
            return false;
        }
        match self.container {
            Container::Dff => {
                out.extend_from_slice(got);
                assert(out@ =~= got@);
                self.pos = self.pos + got.len() as u64;
            },
            Container::Dsf { block_size, reverse } => {
                let round: u64 = self.round_bytes();
                let ch: u64 = self.channels as u64;
                let bs: u64 = block_size as u64;
                let block: u64 = self.pos / round;
                proof {
                    lemma_block_start(self.pos as int, round as int);
                }
                let start: u64 = block * round;
                let skip: u64 = self.pos - start;
                let left: u64 = self.valid_total - start;
                let k: u64 = if left <= round {
                    left
                } else {
                    round
                };
                proof {
                    lemma_block_multiple(
                        block as int,
                        bs as int,
                        ch as int,
                        round as int,
                        start as int,
                        self.valid_total as int,
                    );
                }
                let per: u64 = k / ch;
                assert(per * ch == k) by (nonlinear_arith)
                    requires
                        per == k / ch,
                        k as int % ch as int == 0,
                        ch > 0,
                ;
                let mut all: Vec<u8> = Vec::new();
                let mut i: u64 = 0;
                while i < per
                    invariant
                        i <= per,
                        per * ch == k,
                        ch > 0,
                        bs * ch == round,
                        k <= round <= usize::MAX,
                        per <= bs,
                        all@ == interleave(got@, bs as int, ch as int, reverse, (i * ch) as nat),
                        all@.len() <= i * ch,
                    decreases per - i,
                {
                    let mut c: u64 = 0;
                    while c < ch
                        invariant
                            i < per <= bs,
                            c <= ch,
                            ch > 0,
                            bs * ch == round,
                            round <= usize::MAX,
                            all@ == interleave(
                                got@,
                                bs as int,
                                ch as int,
                                reverse,
                                (i * ch + c) as nat,
                            ),
                            all@.len() <= i * ch + c,
                            i * ch >= 0,
                        decreases ch - c,
                    {
                        proof {
                            lemma_place(i as int, c as int, bs as int, ch as int, round as int);
                        }
                        let at: u64 = c * bs + i;
                        assert(stored_at(bs as int, ch as int, i * ch + c) == at);
                        if (at as usize) < got.len() {
                            let b: u8 = got[at as usize];
                            if reverse {
                                all.push(reverse_bits(b));
                            } else {
                                all.push(b);
                            }
                        }
                        c = c + 1;
                    }
                    assert((i + 1) * ch == i * ch + ch) by (nonlinear_arith);
                    i = i + 1;
                }
                let s: usize = skip as usize;
                if s < all.len() {
                    let tail = vstd::slice::slice_subrange(all.as_slice(), s, all.len());
                    out.extend_from_slice(tail);
                    assert(out@ =~= all@.skip(skip as int));
                } else if s == all.len() {
                    assert(out@ =~= all@.skip(skip as int));
                }
                if out.len() == 0 {
                    self.pos = self.valid_total;
                    return false;
                }
                self.pos = self.pos + out.len() as u64;
            },
        }
        true
    }

    /// Moves to a DoP frame, or to the last whole one if the stream is shorter. Returns
    /// the frame that was reached.
    pub fn seek(&mut self, dop_frame: u64) -> (landed: u64)
        requires
            old(self).wf(),
        ensures
            final(self).wf(),
            final(self).same_file(*old(self)),
            landed == (if dop_frame <= old(self).total() / (2 * old(self).ch()) {
                dop_frame as int
            } else {
                (old(self).total() / (2 * old(self).ch())) as int
            }),
            final(self).at() == landed * (2 * old(self).ch()),
    {
        let bpf: u64 = 2 * self.channels as u64;
        let frames: u64 = self.valid_total / bpf;
        let landed: u64 = if dop_frame <= frames {
            dop_frame
        } else {
            frames
        };
        assert(landed * bpf <= self.valid_total) by (nonlinear_arith)
            requires
                landed <= self.valid_total / bpf,
                bpf > 0,
        ;
        self.pos = landed * bpf;
        landed
    }
}

proof fn lemma_block_start(pos: int, round: int)
    requires
        round > 0,
        pos >= 0,
    ensures
        0 <= (pos / round) * round <= pos,
        pos - (pos / round) * round == pos % round,
        pos % round < round,
{
    vstd::arithmetic::div_mod::lemma_fundamental_div_mod(pos, round);
    assert((pos / round) * round == round * (pos / round)) by (nonlinear_arith);
    assert((pos / round) * round >= 0) by (nonlinear_arith)
        requires
            pos >= 0,
            round > 0,
    ;
}

proof fn lemma_block_multiple(block: int, bs: int, ch: int, round: int, start: int, total: int)
    requires
        ch > 0,
        bs > 0,
        block >= 0,
        round == bs * ch,
        start == block * round,
        total % ch == 0,
        total >= start,
    ensures
        (total - start) % ch == 0,
        round % ch == 0,
        round / ch == bs,
        total - start <= round ==> (total - start) / ch <= bs,
{
    vstd::arithmetic::div_mod::lemma_mod_multiples_basic(bs, ch);
    vstd::arithmetic::div_mod::lemma_div_multiples_vanish(bs, ch);
    assert(ch * bs == bs * ch) by (nonlinear_arith);
    assert(start == (block * bs) * ch) by (nonlinear_arith)
        requires
            start == block * round,
            round == bs * ch,
    ;
    vstd::arithmetic::div_mod::lemma_mod_multiples_basic(block * bs, ch);
    vstd::arithmetic::div_mod::lemma_sub_mod_noop(total, start, ch);
    vstd::arithmetic::div_mod::lemma_small_mod(0, ch as nat);
    if total - start <= round {
        vstd::arithmetic::div_mod::lemma_div_is_ordered(total - start, round, ch);
    }
}

proof fn lemma_place(i: int, c: int, bs: int, ch: int, round: int)
    requires
        0 <= i < bs,
        0 <= c < ch,
        round == bs * ch,
    ensures
        (i * ch + c) / ch == i,
        (i * ch + c) % ch == c,
        0 <= c * bs + i < round,
        0 <= c * bs <= round,
{
    vstd::arithmetic::div_mod::lemma_fundamental_div_mod_converse(i * ch + c, ch, i, c);
    assert(c * bs + i < bs * ch && 0 <= c * bs) by (nonlinear_arith)
        requires
            0 <= i < bs,
            0 <= c < ch,
    ;
}

proof fn lemma_stream_place(q: int, b: int, i: int, c: int, bs: int, ch: int)
    requires
        0 <= i < bs,
        0 <= c < ch,
        b >= 0,
        q == b * (bs * ch) + (i * ch + c),
    ensures
        q % ch == c,
        q / ch == b * bs + i,
        (q / ch) / bs == b,
        (q / ch) % bs == i,
{
    assert(q == (b * bs + i) * ch + c) by (nonlinear_arith)
        requires
            q == b * (bs * ch) + (i * ch + c),
    ;
    vstd::arithmetic::div_mod::lemma_fundamental_div_mod_converse(q, ch, b * bs + i, c);
    vstd::arithmetic::div_mod::lemma_fundamental_div_mod_converse(b * bs + i, bs, b, i);
}

/// A block that the file gave in full comes out byte for byte: place `p` of the
/// interleaved block is the byte that the layout puts there.
pub proof fn law_full_blocks_interleave(
    got: Seq<u8>,
    block_size: int,
    ch: int,
    reverse: bool,
    k: nat,
)
    requires
        block_size > 0,
        ch > 0,
        got.len() == block_size * ch,
        k <= block_size * ch,
    ensures
        interleave(got, block_size, ch, reverse, k) == Seq::new(
            k,
            |p: int| ordered(reverse, got[stored_at(block_size, ch, p)]),
        ),
    decreases k,
{
    if k > 0 {
        law_full_blocks_interleave(got, block_size, ch, reverse, (k - 1) as nat);
        let p = k - 1;
        vstd::arithmetic::div_mod::lemma_fundamental_div_mod(p, ch);
        assert(p / ch < block_size) by (nonlinear_arith)
            requires
                p == ch * (p / ch) + p % ch,
                p < block_size * ch,
                p % ch >= 0,
                ch > 0,
        ;
        lemma_place(p / ch, p % ch, block_size, ch, block_size * ch);
    }
    assert(interleave(got, block_size, ch, reverse, k) =~= Seq::new(
        k,
        |p: int| ordered(reverse, got[stored_at(block_size, ch, p)]),
    ));
}

/// Reading is bit-exact from any place. Wherever a seek has left the reader, the next part
/// that a fully stored block yields is the stream's own, from that place up to the end of
/// the block or of the stream; and it is never empty, so that reading on reaches the end.
pub proof fn law_reads_give_the_stream(
    data: Seq<u8>,
    block_size: int,
    ch: int,
    reverse: bool,
    total: nat,
    pos: nat,
)
    requires
        block_size > 0,
        ch > 0,
        pos < total,
        ((pos / ((block_size * ch) as nat)) + 1) * (block_size * ch) <= data.len(),
    ensures
        ({
            let round = block_size * ch;
            let start = (pos as int / round) * round;
            let k = if total - start <= round {
                (total - start) as nat
            } else {
                round as nat
            };
            let got = data.subrange(start, start + round);
            let part = interleave(got, block_size, ch, reverse, k).skip(pos - start);
            &&& part == dsf_stream(data, block_size, ch, reverse, total).subrange(
                pos as int,
                start + k,
            )
            &&& part.len() > 0
        }),
{
    let round = block_size * ch;
    assert(round > 0) by (nonlinear_arith)
        requires
            block_size > 0,
            ch > 0,
            round == block_size * ch,
    ;
    let b = pos as int / round;
    let start = b * round;
    lemma_block_start(pos as int, round);
    assert((b + 1) * round == start + round) by (nonlinear_arith)
        requires
            start == b * round,
    ;
    let k = if total - start <= round {
        (total - start) as nat
    } else {
        round as nat
    };
    let got = data.subrange(start, start + round);
    law_full_blocks_interleave(got, block_size, ch, reverse, k);
    let all = interleave(got, block_size, ch, reverse, k);
    let part = all.skip(pos - start);
    let whole = dsf_stream(data, block_size, ch, reverse, total);
    assert forall|j: int| 0 <= j < part.len() implies part[j] == whole.subrange(
        pos as int,
        start + k,
    )[j] by {
        let q = pos + j;
        let p = q - start;
        assert(q == b * round + p);
        vstd::arithmetic::div_mod::lemma_fundamental_div_mod_converse(q, round, b, p);
        assert(part[j] == all[p]);
        let at = stored_at(block_size, ch, p);
        vstd::arithmetic::div_mod::lemma_fundamental_div_mod(p, ch);
        assert(p / ch < block_size) by (nonlinear_arith)
            requires
                p == ch * (p / ch) + p % ch,
                p < block_size * ch,
                p % ch >= 0,
                ch > 0,
        ;
        lemma_place(p / ch, p % ch, block_size, ch, round);
        lemma_stream_place(q, b, p / ch, p % ch, block_size, ch);
        assert(got[at] == data[start + at]);
    }
    assert(part =~= whole.subrange(pos as int, start + k));
}

/// What a read of `len` bytes from place `at` finds in a file.
pub open spec fn found(file: Seq<u8>, at: int, len: int) -> Seq<u8> {
    let from = if at <= file.len() {
        at
    } else {
        file.len() as int
    };
    let to = if at + len <= file.len() {
        at + len
    } else {
        file.len() as int
    };
    file.subrange(from, to)
}

/// The pieces one after the other.
pub open spec fn joined(pieces: Seq<Seq<u8>>) -> Seq<u8>
    decreases pieces.len(),
{
    if pieces.len() == 0 {
        Seq::empty()
    } else {
        joined(pieces.drop_last()) + pieces.last()
    }
}

/// One step of reading a file: the source before and after it, and what it yields.
pub open spec fn is_read_step(
    file: Seq<u8>,
    before: DsfDffSource,
    after: DsfDffSource,
    out: Seq<u8>,
) -> bool {
    &&& before.wf()
    &&& before.at() < before.total()
    &&& after.went_on(before, found(file, before.wanted().0, before.wanted().1), out)
}

/// A source that is read step after step: `states` are the source before, between and
/// after the steps, `outs` what each step yields.
pub open spec fn is_read(file: Seq<u8>, states: Seq<DsfDffSource>, outs: Seq<Seq<u8>>) -> bool {
    &&& states.len() == outs.len() + 1
    &&& forall|k: int|
        0 <= k < outs.len() ==> is_read_step(file, states[k], states[k + 1], #[trigger] outs[k])
}

impl DsfDffSource {
    /// The file holds every byte of the stream: for a block-wise file every round of blocks
    /// that the stream reaches into, padding included.
    pub open spec fn held_by(self, file: Seq<u8>) -> bool {
        match self.layout() {
            Container::Dff => self.data_start() + self.total() <= file.len(),
            Container::Dsf { .. } => self.data_start() + ((self.total() + self.round() - 1)
                / self.round() as int) * self.round() <= file.len(),
        }
    }

    /// The stream that a file holds.
    pub open spec fn stream(self, file: Seq<u8>) -> Seq<u8> {
        match self.layout() {
            Container::Dff => file.subrange(
                self.data_start() as int,
                (self.data_start() + self.total()) as int,
            ),
            Container::Dsf { block_size, reverse } => dsf_stream(
                file.skip(self.data_start() as int),
                block_size as int,
                self.ch() as int,
                reverse,
                self.total(),
            ),
        }
    }
}

proof fn lemma_next_part(src: DsfDffSource, file: Seq<u8>)
    requires
        src.wf(),
        src.at() < src.total(),
        src.held_by(file),
    ensures
        ({
            let part = src.part(found(file, src.wanted().0, src.wanted().1));
            &&& part.len() > 0
            &&& src.at() + part.len() <= src.total()
            &&& part == src.stream(file).subrange(
                src.at() as int,
                (src.at() + part.len()) as int,
            )
        }),
{
    let got = found(file, src.wanted().0, src.wanted().1);
    match src.layout() {
        Container::Dff => {
            assert(got =~= src.stream(file).subrange(
                src.at() as int,
                (src.at() + got.len()) as int,
            ));
        },
        Container::Dsf { block_size, reverse } => {
            let data = file.skip(src.data_start() as int);
            let round = src.round() as int;
            let pos = src.at() as int;
            let b = pos / round;
            lemma_block_start(pos, round);
            assert((b + 1) * round == b * round + round) by (nonlinear_arith);
            vstd::arithmetic::div_mod::lemma_div_is_ordered(
                pos + round,
                src.total() + round - 1,
                round,
            );
            vstd::arithmetic::div_mod::lemma_fundamental_div_mod(pos, round);
            assert(pos + round == (b + 1) * round + pos % round) by {
                assert(round * b == b * round) by (nonlinear_arith);
            }
            vstd::arithmetic::div_mod::lemma_fundamental_div_mod_converse(
                pos + round,
                round,
                b + 1,
                pos % round,
            );
            let rounds = (src.total() + round - 1) / round;
            assert((b + 1) * round <= rounds * round) by (nonlinear_arith)
                requires
                    b + 1 <= rounds,
                    round > 0,
            ;
            assert(block_size as int * src.ch() == round);
            law_reads_give_the_stream(
                data,
                block_size as int,
                src.ch() as int,
                reverse,
                src.total(),
                src.at(),
            );
            assert(got =~= data.subrange(b * round, b * round + round));
            let start = b * round;
            let k = if src.total() - start <= round {
                (src.total() - start) as nat
            } else {
                round as nat
            };
            law_full_blocks_interleave(got, block_size as int, src.ch() as int, reverse, k);
            assert(src.part(got).len() == start + k - pos);
        },
    }
}

/// Reading a file that holds its stream gives that stream, from the place where the reading
/// starts to the place that it has reached, and nothing else: no padding, no gap and nothing
/// twice. Every step before the end yields something, so reading on until nothing comes
/// reaches the end, and read from the start it gives all of it. For a block-wise file the
/// stream's byte `i * ch + c` is byte `i` of channel `c`, oldest bit first.
pub proof fn law_whole_read_gives_the_stream(
    file: Seq<u8>,
    states: Seq<DsfDffSource>,
    outs: Seq<Seq<u8>>,
)
    requires
        is_read(file, states, outs),
        states[0].wf(),
        states[0].held_by(file),
    ensures
        states.last().same_file(states[0]),
        states[0].at() <= states.last().at() <= states[0].total(),
        forall|k: int| 0 <= k < outs.len() ==> (#[trigger] outs[k]).len() > 0,
        joined(outs) == states[0].stream(file).subrange(
            states[0].at() as int,
            states.last().at() as int,
        ),
        states[0].at() == 0 && states.last().at() == states[0].total() ==> joined(outs)
            == states[0].stream(file),
        states[0].layout() matches Container::Dsf { block_size, reverse } ==> forall|i: int, c: int|
            #![trigger channel_byte(
                file.skip(states[0].data_start() as int),
                block_size as int,
                states[0].ch() as int,
                c,
                i,
            )]
            0 <= i < states[0].total() as int / states[0].ch() as int && 0 <= c < states[0].ch()
                ==> states[0].stream(file)[i * states[0].ch() + c] == ordered(
                reverse,
                channel_byte(
                    file.skip(states[0].data_start() as int),
                    block_size as int,
                    states[0].ch() as int,
                    c,
                    i,
                ),
            ),
    decreases outs.len(),
{
    let first = states[0];
    let whole = first.stream(file);
    if outs.len() > 0 {
        let n = outs.len() - 1;
        let s = states.drop_last();
        let o = outs.drop_last();
        assert forall|k: int| 0 <= k < o.len() implies is_read_step(
            file,
            s[k],
            s[k + 1],
            #[trigger] o[k],
        ) by {
            assert(o[k] == outs[k]);
            assert(s[k] == states[k]);
            assert(s[k + 1] == states[k + 1]);
        }
        law_whole_read_gives_the_stream(file, s, o);
        let before = states[n as int];
        assert(is_read_step(file, before, states[n + 1], outs[n as int]));
        lemma_next_part(before, file);
        assert(before.stream(file) == whole);
        assert forall|k: int| 0 <= k < outs.len() implies (#[trigger] outs[k]).len() > 0 by {
            if k < n {
                assert(o[k].len() > 0);
            }
        }
        assert(joined(outs) =~= whole.subrange(first.at() as int, states.last().at() as int));
    } else {
        assert(joined(outs) =~= whole.subrange(first.at() as int, first.at() as int));
    }
    assert(whole.subrange(0, whole.len() as int) =~= whole);
    if let Container::Dsf { block_size, reverse } = first.layout() {
        let ch = first.ch() as int;
        assert forall|i: int, c: int|
            #![trigger channel_byte(
                file.skip(first.data_start() as int),
                block_size as int,
                ch,
                c,
                i,
            )]
            0 <= i < first.total() as int / ch && 0 <= c < ch implies whole[i * ch + c] == ordered(
            reverse,
            channel_byte(file.skip(first.data_start() as int), block_size as int, ch, c, i),
        ) by {
            vstd::arithmetic::div_mod::lemma_fundamental_div_mod_converse(i * ch + c, ch, i, c);
            vstd::arithmetic::div_mod::lemma_fundamental_div_mod(first.total() as int, ch);
            assert(0 <= i * ch + c < first.total()) by (nonlinear_arith)
                requires
                    0 <= i < first.total() as int / ch,
                    0 <= c < ch,
                    first.total() == ch * (first.total() as int / ch),
            ;
        }
    }
}

/// Reading on reaches the end, whatever the file holds: each step but the last yields
/// something, so there are no more steps than bytes that were left.
pub proof fn law_reading_ends(file: Seq<u8>, states: Seq<DsfDffSource>, outs: Seq<Seq<u8>>)
    requires
        is_read(file, states, outs),
        forall|k: int| 0 <= k < states.len() ==> (#[trigger] states[k]).wf(),
    ensures
        states.last().same_file(states[0]),
        outs.len() <= states.last().at() - states[0].at() <= states[0].total() - states[0].at(),
        forall|k: int| 0 <= k < outs.len() - 1 ==> (#[trigger] outs[k]).len() > 0,
    decreases outs.len(),
{
    if outs.len() > 0 {
        let n = outs.len() - 1;
        let s = states.drop_last();
        let o = outs.drop_last();
        assert forall|k: int| 0 <= k < o.len() implies is_read_step(
            file,
            s[k],
            s[k + 1],
            #[trigger] o[k],
        ) by {
            assert(o[k] == outs[k]);
            assert(s[k] == states[k]);
            assert(s[k + 1] == states[k + 1]);
        }
        law_reading_ends(file, s, o);
        let before = states[n as int];
        assert(is_read_step(file, before, states[n + 1], outs[n as int]));
        assert forall|k: int| 0 <= k < outs.len() - 1 implies (#[trigger] outs[k]).len() > 0 by {
            assert(is_read_step(file, states[k], states[k + 1], outs[k]));
            assert(is_read_step(file, states[k + 1], states[k + 2], outs[k + 1]));
        }
    }
}

/// The playable areas of a disc image.
#[derive(Clone, Copy, Debug, PartialEq, Eq, Structural)]
pub enum Area {
    Stereo,
    MultiChannel,
}

/// The place of the area to play: the first stereo area, else the first of any kind.
pub fn pick_area(areas: &[Area]) -> (r: Option<usize>)
    ensures
        r is None <==> areas@.len() == 0,
        r matches Some(i) ==> i < areas@.len() && if areas@.contains(Area::Stereo) {
            areas@[i as int] == Area::Stereo && forall|j: int|
                0 <= j < i ==> areas@[j] != Area::Stereo
        } else {
            i == 0
        },
{
    for i in 0..areas.len()
        invariant
            forall|j: int| 0 <= j < i ==> areas@[j] != Area::Stereo,
    {
        if areas[i] == Area::Stereo {
            return Some(i);
        }
    }
    if areas.len() > 0 {
        Some(0)
    } else {
        None
    }
}

/// DoP frames in one frame of a disc image (a seventy-fifth of a second).
pub fn dop_frames_per_sector(dsd_rate: u32) -> (n: u64)
    ensures
        n == (if dsd_rate < 1200 {
            1
        } else {
            dsd_rate as int / 1200
        }),
        n >= 1,
{
    let n: u64 = dsd_rate as u64 / 1200;
    if n < 1 {
        1
    } else {
        n
    }
}

/// The disc frame that holds a DoP frame.
pub fn sacd_target(dsd_rate: u32, dop_frame: u64) -> (n: u64)
    ensures
        n == dop_frame as int / (if dsd_rate < 1200 {
            1
        } else {
            dsd_rate as int / 1200
        }),
{
    dop_frame / dop_frames_per_sector(dsd_rate)
}

/// The DoP frame at which a disc frame starts.
pub fn sacd_landed(dsd_rate: u32, disc_frame: u64) -> (n: u64)
    requires
        disc_frame * dsd_rate <= u64::MAX,
    ensures
        n == disc_frame * (if dsd_rate < 1200 {
            1
        } else {
            dsd_rate as int / 1200
        }),
{
    let d: u64 = dop_frames_per_sector(dsd_rate);
    assert(disc_frame * d <= u64::MAX) by (nonlinear_arith)
        requires
            disc_frame * dsd_rate <= u64::MAX,
            disc_frame <= u64::MAX,
            d == 1 || d <= dsd_rate,
    ;
    disc_frame * d
}

/// A disc seek goes back at most to the start of the disc frame that holds the target.
pub proof fn law_disc_seek_stays_in_its_frame(dop_frame: nat, d: nat)
    requires
        d >= 1,
    ensures
        (dop_frame / d) * d <= dop_frame < (dop_frame / d) * d + d,
{
    lemma_block_start(dop_frame as int, d as int);
}

/// A DSD stream is carried by PCM frames of sixteen bits of each channel, and is called by the
/// multiple of a compact disc's rate that its bits come at.
pub proof fn law_dsd_is_carried_sixteen_bits_at_a_time(
    d: DsdSpec,
    fmt: AlsaFmt,
    s: StreamSpec,
    n: u32,
    label: String,
)
    requires
        call_ensures(DsdSpec::dop_spec, (&d, fmt), s),
        call_ensures(DsdSpec::dsd_multiple, (&d,), n),
        call_ensures(DsdSpec::label, (&d,), label),
    ensures
        s.rate * 16 <= d.dsd_rate < (s.rate + 1) * 16,
        s.channels == d.channels,
        s.fmt == fmt,
        s.is_dop,
        s.source_bits == 24,
        d.dsd_rate % 44_100 == 0 ==> n * 44_100 == d.dsd_rate,
        d.dsd_rate % 44_100 != 0 ==> n == 0,
        label@ == "DSD"@ + decimal(n as nat),
{
}

/// A DSD file is opened by its extension, in any case: as it is, or a disc image at the track
/// asked for, the first without one. Anything else is refused, with its extension and path.
pub proof fn law_dsd_opens_by_extension(
    path: &str,
    track: Option<usize>,
    r: Result<DsdOpen, Error>,
    b: bool,
)
    requires
        call_ensures(open_dsd, (path, track), r),
        call_ensures(is_dsd_path, (path,), b),
    ensures
        ({
            let x = match extension(path@) {
                Some(e) => lower(e),
                None => Seq::empty(),
            };
            &&& x == "dsf"@ ==> r == Ok::<DsdOpen, Error>(DsdOpen::Dsf)
            &&& x == "dff"@ ==> r == Ok::<DsdOpen, Error>(DsdOpen::Dff)
            &&& x == "iso"@ && track is None ==> r == Ok::<DsdOpen, Error>(DsdOpen::Sacd(0usize))
            &&& x == "iso"@ && track is Some ==> r == Ok::<DsdOpen, Error>(
                DsdOpen::Sacd(track->0),
            )
            &&& b <==> x == "dsf"@ || x == "dff"@ || x == "iso"@
            &&& !b ==> (r matches Err(Error::Unsupported(s)) && s@ == "not a DSD file: ."@ + x
                + " ("@ + path@ + ")"@)
        }),
{
    reveal_strlit("dsf");
    reveal_strlit("dff");
    reveal_strlit("iso");
    assert("dsf"@[0] == 'd' && "dsf"@[1] == 's');
    assert("dff"@[0] == 'd' && "dff"@[1] == 'f');
    assert("iso"@[0] == 'i');
}

/// In a reversed byte every bit stands at the opposite place.
pub proof fn law_reversal_mirrors_the_bits(b: u8, i: u8)
    requires
        i < 8,
    ensures
        (reversed(b) >> i) & 1 == (b >> ((7 - i) as u8)) & 1,
{
    let r = reversed(b);
    assert(i < 8 && r == ((b & 0x01) << 7u32) | ((b & 0x02) << 5u32) | ((b & 0x04) << 3u32) | ((b
        & 0x08) << 1u32) | ((b & 0x10) >> 1u32) | ((b & 0x20) >> 3u32) | ((b & 0x40) >> 5u32) | ((b
        & 0x80) >> 7u32) ==> (r >> i) & 1 == (b >> ((7 - i) as u8)) & 1) by (bit_vector);
}

/// A file is played as far as it declares audio and holds it, in whole rounds of its channels:
/// never more, and less than a round less. One without channels is refused.
pub proof fn law_files_play_what_they_hold(
    channels: u32,
    offset: u64,
    audio_len: u64,
    rate: u32,
    file_len: u64,
    r: Result<DsfDffSource, Error>,
)
    requires
        call_ensures(
            DsfDffSource::open_dff,
            (channels, offset, audio_len, rate, file_len),
            r,
        ),
    ensures
        r is Ok <==> channels > 0,
        r matches Ok(s) ==> {
            let held = if file_len >= offset {
                file_len - offset
            } else {
                0
            };
            &&& s.layout() is Dff && s.data_start() == offset && s.ch() == channels && s.at() == 0
            &&& s.total() <= audio_len && s.total() <= held
            &&& s.total() % channels as nat == 0
            &&& s.total() + channels > audio_len || s.total() + channels > held
            &&& s.dsd_spec().dsd_rate == rate && s.dsd_spec().channels == channels
            &&& s.total() == 0 ==> s.dsd_spec().n_frames is None
            &&& s.total() > 0 ==> (s.dsd_spec().n_frames matches Some(n) && n * (2 * channels)
                <= s.total() < (n + 1) * (2 * channels))
        },
{
    if let Ok(s) = r {
        lemma_usable(audio_len as nat, offset as nat, file_len as nat, channels as nat);
        lemma_frames_of(s.total(), channels as nat);
    }
}

proof fn lemma_usable(declared: nat, offset: nat, file_len: nat, ch: nat)
    requires
        ch > 0,
    ensures
        ({
            let held: nat = if file_len >= offset {
                (file_len - offset) as nat
            } else {
                0
            };
            let t = usable(declared, offset, file_len, ch);
            &&& t <= declared && t <= held
            &&& t % ch == 0
            &&& t + ch > declared || t + ch > held
        }),
{
    let held: nat = if file_len >= offset {
        (file_len - offset) as nat
    } else {
        0
    };
    let m = if declared <= held {
        declared
    } else {
        held
    };
    vstd::arithmetic::div_mod::lemma_fundamental_div_mod(m as int, ch as int);
    let t = m - m % ch;
    assert(t == ch * (m as int / ch as int));
    vstd::arithmetic::div_mod::lemma_mod_multiples_basic(m as int / ch as int, ch as int);
    assert(ch * (m as int / ch as int) == (m as int / ch as int) * ch) by (nonlinear_arith);
    assert(t >= 0) by (nonlinear_arith)
        requires
            t == ch * (m as int / ch as int),
            ch > 0,
            m >= 0,
    ;
}

proof fn lemma_frames_of(total: nat, ch: nat)
    requires
        ch > 0,
    ensures
        ({
            let n = total / (2 * ch);
            n * (2 * ch) <= total < (n + 1) * (2 * ch) && n <= total
        }),
{
    vstd::arithmetic::div_mod::lemma_fundamental_div_mod(total as int, (2 * ch) as int);
    let n = total / (2 * ch);
    assert(n * (2 * ch) == (2 * ch) * n && (n + 1) * (2 * ch) == (2 * ch) * n + 2 * ch)
        by (nonlinear_arith);
    assert(n <= (2 * ch) * n) by (nonlinear_arith)
        requires
            ch > 0,
    ;
}

/// A block-wise file declares an eighth of a byte per sample and channel; it is read from its
/// block size, with the bits reversed exactly if the oldest bit is the lowest.
pub proof fn law_block_files_play_what_they_hold(
    channels: u32,
    block_size: u32,
    bits: u32,
    samples: u64,
    offset: u64,
    rate: u32,
    file_len: u64,
    r: Result<DsfDffSource, Error>,
)
    requires
        call_ensures(
            DsfDffSource::open_dsf,
            (channels, block_size, bits, samples, offset, rate, file_len),
            r,
        ),
        (samples / 8) * channels <= u64::MAX,
    ensures
        r is Ok <==> channels > 0,
        r matches Ok(s) ==> {
            let declared = (samples / 8) * channels;
            let held = if file_len >= offset {
                file_len - offset
            } else {
                0
            };
            &&& s.layout() == (Container::Dsf { block_size, reverse: bits == 1 })
            &&& s.data_start() == offset && s.ch() == channels && s.at() == 0
            &&& s.total() <= declared && s.total() <= held
            &&& s.total() % channels as nat == 0
            &&& s.total() + channels > declared || s.total() + channels > held
            &&& s.dsd_spec().dsd_rate == rate && s.dsd_spec().channels == channels
        },
{
    if let Ok(s) = r {
        lemma_usable(
            ((samples / 8) * channels) as nat,
            offset as nat,
            file_len as nat,
            channels as nat,
        );
    }
}

/// What is read next gives the stream on from where it stands, byte by byte, if the file holds
/// it: an interleaved file as it lies there; a block-wise file channel by channel out of its
/// blocks, each byte in the order of its bits.
pub proof fn law_next_read_goes_on_with_the_stream(
    s: &mut DsfDffSource,
    q: Option<ReadRequest>,
    got: &[u8],
    out: &mut Vec<u8>,
    more: bool,
    file: Seq<u8>,
    p: int,
)
    requires
        call_ensures(DsfDffSource::read_request, (&*old(s),), q),
        call_ensures(DsfDffSource::next, (s, got, out), more),
        old(s).wf(),
        old(s).at() < old(s).total(),
        old(s).held_by(file),
        q matches Some(w) ==> got@ == found(file, w.offset as int, w.len as int),
        0 <= p,
    ensures
        q is Some,
        more,
        final(out)@.len() > 0,
        final(s).at() == old(s).at() + final(out)@.len(),
        final(s).at() <= old(s).total(),
        p < final(out)@.len() ==> {
            let n = old(s).at() + p;
            let data = file.skip(old(s).data_start() as int);
            match old(s).layout() {
                Container::Dff => final(out)@[p] == data[n],
                Container::Dsf { block_size, reverse } => {
                    let bs = block_size as int;
                    let ch = old(s).ch() as int;
                    let c = n % ch;
                    let i = n / ch;
                    let b = data[(i / bs) * (bs * ch) + c * bs + i % bs];
                    final(out)@[p] == (if reverse {
                        reversed(b)
                    } else {
                        b
                    })
                },
            }
        },
{
    let src = *old(s);
    lemma_next_part(src, file);
    let part = src.part(found(file, src.wanted().0, src.wanted().1));
    assert(final(out)@ == part);
    if p < part.len() {
        assert(part[p] == src.stream(file)[src.at() + p]);
    }
}

/// A stream that is over is not read on.
pub proof fn law_end_of_the_stream(
    s: &mut DsfDffSource,
    q: Option<ReadRequest>,
    got: &[u8],
    out: &mut Vec<u8>,
    more: bool,
)
    requires
        call_ensures(DsfDffSource::read_request, (&*old(s),), q),
        call_ensures(DsfDffSource::next, (s, got, out), more),
        old(s).wf(),
        old(s).at() == old(s).total(),
    ensures
        q is None,
        !more,
        final(out)@.len() == 0,
        *final(s) == *old(s),
{
}

/// A seek leads to the frame asked for if the stream has it, and else to its last whole frame;
/// two bytes of each channel make a frame.
pub proof fn law_seek_leads_to_its_frame(s: &mut DsfDffSource, frame: u64, landed: u64, n: nat)
    requires
        call_ensures(DsfDffSource::seek, (s, frame), landed),
        old(s).wf(),
        n * (2 * old(s).ch()) <= old(s).total() < (n + 1) * (2 * old(s).ch()),
    ensures
        frame <= n ==> landed == frame,
        frame > n ==> landed == n,
        final(s).at() == landed * (2 * old(s).ch()),
        final(s).same_file(*old(s)),
{
    let d = (2 * old(s).ch()) as int;
    let total = old(s).total() as int;
    assert(total / d == n) by {
        assert(total == n * d + (total - n * d));
        assert((n + 1) * d == n * d + d) by (nonlinear_arith);
        vstd::arithmetic::div_mod::lemma_fundamental_div_mod_converse(total, d, n as int, total - n * d);
    }
}

/// A disc plays its first stereo area, and without one the first there is.
pub proof fn law_stereo_area_goes_first(areas: &[Area], r: Option<usize>, k: int)
    requires
        call_ensures(pick_area, (areas,), r),
    ensures
        r is None <==> areas@.len() == 0,
        0 <= k < areas@.len() && areas@[k] == Area::Stereo && (forall|j: int|
            0 <= j < k ==> areas@[j] != Area::Stereo) ==> r == Some(k as usize) && k <= usize::MAX,
        areas@.len() > 0 && (forall|j: int| 0 <= j < areas@.len() ==> areas@[j] != Area::Stereo)
            ==> r == Some(0usize),
{
    if 0 <= k < areas@.len() && areas@[k] == Area::Stereo {
        assert(areas@.contains(Area::Stereo));
    }
}

/// A disc frame is a seventy-fifth of a second. A seek leads to the disc frame that holds the DoP
/// frame, and lands where that disc frame starts: at the frame or before it, by less than a disc
/// frame.
pub proof fn law_disc_seek_lands_before_its_frame(
    rate: u32,
    n: u64,
    frame: u64,
    disc: u64,
    landed: u64,
)
    requires
        call_ensures(dop_frames_per_sector, (rate,), n),
        call_ensures(sacd_target, (rate, frame), disc),
        call_ensures(sacd_landed, (rate, disc), landed),
        disc * rate <= u64::MAX,
    ensures
        rate >= 1200 ==> n * 1200 <= rate < (n + 1) * 1200,
        rate < 1200 ==> n == 1,
        landed <= frame < landed + n,
        landed == disc * n,
{
    law_disc_seek_stays_in_its_frame(frame as nat, n as nat);
}

/// A file tells the stream that it holds.
pub proof fn law_file_tells_its_stream(s: DsfDffSource, d: DsdSpec)
    requires
        call_ensures(DsfDffSource::spec, (&s,), d),
    ensures
        d == s.dsd_spec(),
{
}

/// The places among the first `k` of a block whose bytes the file gave.
pub open spec fn given(len: int, bs: int, ch: int, k: int) -> nat
    decreases k,
{
    if k <= 0 {
        0
    } else {
        given(len, bs, ch, k - 1) + if ((k - 1) % ch) * bs + (k - 1) / ch < len {
            1nat
        } else {
            0nat
        }
    }
}

proof fn lemma_given(got: Seq<u8>, bs: int, ch: int, reverse: bool, k: nat, p: int)
    requires
        bs > 0,
        ch > 0,
    ensures
        interleave(got, bs, ch, reverse, k).len() == given(got.len() as int, bs, ch, k as int),
        0 <= p < k && (p % ch) * bs + p / ch < got.len() ==> {
            let n = given(got.len() as int, bs, ch, p) as int;
            n < interleave(got, bs, ch, reverse, k).len() && interleave(
                got,
                bs,
                ch,
                reverse,
                k,
            )[n] == ordered(reverse, got[(p % ch) * bs + p / ch])
        },
    decreases k,
{
    if k > 0 {
        lemma_given(got, bs, ch, reverse, (k - 1) as nat, p);
    }
}

/// A block that the file gave only in part comes out as far as it goes, in the order of the
/// stream: each byte that is there, and nothing in place of those that are not. If nothing comes,
/// the stream is over.
pub proof fn law_cut_block_comes_out_as_far_as_it_goes(
    s: &mut DsfDffSource,
    got: &[u8],
    out: &mut Vec<u8>,
    more: bool,
    block_size: u32,
    reverse: bool,
    p: int,
)
    requires
        call_ensures(DsfDffSource::next, (s, got, out), more),
        old(s).wf(),
        old(s).at() < old(s).total(),
        old(s).layout() == (Container::Dsf { block_size, reverse }),
        old(s).at() % old(s).round() == 0,
        0 <= p,
    ensures
        ({
            let bs = block_size as int;
            let ch = old(s).ch() as int;
            let left = old(s).total() - old(s).at();
            let k = if left <= bs * ch {
                left
            } else {
                bs * ch
            };
            let from = (p % ch) * bs + p / ch;
            let n = given(got@.len() as int, bs, ch, p) as int;
            &&& final(out)@.len() == given(got@.len() as int, bs, ch, k)
            &&& p < k && from < got@.len() ==> n < final(out)@.len() && final(out)@[n] == (
            if reverse {
                reversed(got@[from])
            } else {
                got@[from]
            })
            &&& more <==> final(out)@.len() > 0
            &&& more ==> final(s).at() == old(s).at() + final(out)@.len()
            &&& !more ==> final(s).at() == old(s).total()
        }),
{
    let src = *old(s);
    let bs = block_size as int;
    let ch = src.ch() as int;
    let round = src.round() as int;
    let pos = src.at() as int;
    lemma_block_start(pos, round);
    let left = src.total() - pos;
    let k: nat = if left <= round {
        left as nat
    } else {
        round as nat
    };
    assert(bs > 0) by (nonlinear_arith)
        requires
            bs * ch == round,
            round > 0,
            ch > 0,
    ;
    lemma_given(got@, bs, ch, reverse, k, p);
    let all = interleave(got@, bs, ch, reverse, k);
    assert(all.skip(0) =~= all);
}

/// A block-wise file knows how many frames it has: two bytes of each channel to the frame.
pub proof fn law_block_files_count_their_frames(
    channels: u32,
    block_size: u32,
    bits: u32,
    samples: u64,
    offset: u64,
    rate: u32,
    file_len: u64,
    s: DsfDffSource,
)
    requires
        call_ensures(
            DsfDffSource::open_dsf,
            (channels, block_size, bits, samples, offset, rate, file_len),
            Ok::<DsfDffSource, Error>(s),
        ),
    ensures
        channels > 0,
        s.total() == 0 ==> s.dsd_spec().n_frames is None,
        s.total() > 0 ==> (s.dsd_spec().n_frames matches Some(n) && n * (2 * channels) <= s.total()
            < (n + 1) * (2 * channels)),
{
    lemma_frames_of(s.total(), channels as nat);
}

/// What is asked of a file next starts where the stream stands: an interleaved file is read on
/// from there, by sixty-four kilobytes at most and never beyond the stream; a block-wise file from
/// the start of the round of blocks that the place lies in, one round.
pub proof fn law_requests_start_where_the_stream_stands(s: DsfDffSource, q: ReadRequest)
    requires
        call_ensures(DsfDffSource::read_request, (&s,), Some(q)),
        s.wf(),
    ensures
        s.at() < s.total(),
        s.layout() is Dff ==> {
            &&& q.offset == s.data_start() + s.at()
            &&& q.len <= 65_536 && q.len <= s.total() - s.at()
            &&& q.len == 65_536 || q.len == s.total() - s.at()
            &&& q.exact
        },
        s.layout() matches Container::Dsf { block_size, reverse } ==> {
            let round = block_size as nat * s.ch();
            &&& q.offset == s.data_start() + s.at() - s.at() % round
            &&& q.len == round
            &&& !q.exact
        },
{
    if s.layout() is Dsf {
        lemma_block_start(s.at() as int, s.round() as int);
    }
}

/// A file without channels is refused as such.
pub proof fn law_files_without_channels_are_refused(
    block_size: u32,
    bits: u32,
    samples: u64,
    offset: u64,
    audio_len: u64,
    rate: u32,
    file_len: u64,
    a: Result<DsfDffSource, Error>,
    b: Result<DsfDffSource, Error>,
)
    requires
        call_ensures(
            DsfDffSource::open_dsf,
            (0u32, block_size, bits, samples, offset, rate, file_len),
            a,
        ),
        call_ensures(DsfDffSource::open_dff, (0u32, offset, audio_len, rate, file_len), b),
    ensures
        a matches Err(Error::Dsd(s)) && s@ == "DSD file reports zero channels"@,
        b matches Err(Error::Dsd(s)) && s@ == "DSD file reports zero channels"@,
{
}

} // verus!
