//! Keeping decoded audio out of the page cache: which part of a file the kernel may
//! drop as the decoder moves through it.
use vstd::prelude::*;

verus! {

/// Advice is given for this many bytes at a time.
pub const ADVISE_THRESHOLD: u64 = 4_194_304;

pub const PAGE: u64 = 4096;

/// A byte range of the file that will not be read again soon.
#[derive(Clone, Copy, Debug, PartialEq, Eq, Structural)]
pub struct Advice {
    pub offset: u64,
    pub len: u64,
}

/// The start of the page that a position falls in.
pub open spec fn page_floor(pos: u64) -> u64 {
    (pos - pos % PAGE) as u64
}

/// The watermark after a seek: going back behind it lowers it to the page of the new position.
pub open spec fn rewound(watermark: u64, new: u64) -> u64 {
    if new < watermark {
        page_floor(new)
    } else {
        watermark
    }
}

/// A reader, the position it has reached, and how far the pages behind it are dropped.
pub struct FadviseReader<R> {
    inner: R,
    pos: u64,
    advised: u64,
}

impl<R> FadviseReader<R> {
    pub closed spec fn source(self) -> R {
        self.inner
    }

    pub closed spec fn cursor(self) -> u64 {
        self.pos
    }

    /// Everything below is dropped.
    pub closed spec fn watermark(self) -> u64 {
        self.advised
    }

    /// The watermark lies on a page boundary, at or behind the page of the cursor.
    pub open spec fn wf(self) -> bool {
        &&& self.watermark() % PAGE == 0
        &&& self.watermark() <= self.cursor()
    }

    pub fn new(inner: R) -> (r: Self)
        ensures
            r.source() == inner,
            r.cursor() == 0,
            r.watermark() == 0,
            r.wf(),
    {
        FadviseReader { inner, pos: 0, advised: 0 }
    }

    /// The reader itself.
    pub fn get_mut(&mut self) -> (r: &mut R)
        ensures
            *r == old(self).source(),
            final(self).source() == *final(r),
            final(self).cursor() == old(self).cursor(),
            final(self).watermark() == old(self).watermark(),
    {
        &mut self.inner
    }

    /// The bytes that are dropped so far.
    pub fn advised(&self) -> (n: u64)
        ensures
            n == self.watermark(),
    {
        self.advised
    }

    /// Takes note of `n` bytes read. Returns the range to drop, once the pages between
    /// the watermark and the cursor's page add up to the threshold.
    pub fn note_read(&mut self, n: u64) -> (r: Option<Advice>)
        requires
            old(self).wf(),
            old(self).cursor() + n <= u64::MAX,
        ensures
            final(self).wf(),
            final(self).source() == old(self).source(),
            final(self).cursor() == old(self).cursor() + n,
            ({
                let floor = page_floor(final(self).cursor());
                if floor - old(self).watermark() >= ADVISE_THRESHOLD {
                    &&& r == Some(
                        Advice {
                            offset: old(self).watermark(),
                            len: (floor - old(self).watermark()) as u64,
                        },
                    )
                    &&& final(self).watermark() == floor
                } else {
                    r is None && final(self).watermark() == old(self).watermark()
                }
            }),
    {
        self.pos = self.pos + n;
        let floor: u64 = floor_to_page(self.pos);
        if floor <= self.advised || floor - self.advised < ADVISE_THRESHOLD {
            return None;
        }
        let advice = Advice { offset: self.advised, len: floor - self.advised };
        self.advised = floor;
        Some(advice)
    }

    /// Takes the outcome of seeking the reader, and passes it on. Going back behind the
    /// watermark lowers it to the page of the new position, so that what is read again can be
    /// dropped again. A seek that failed changes nothing.
    pub fn seek<E>(&mut self, landed: Result<u64, E>) -> (r: Result<u64, E>)
        requires
            old(self).wf(),
        ensures
            r == landed,
            final(self).wf(),
            final(self).source() == old(self).source(),
            match landed {
                Ok(new) => {
                    &&& final(self).cursor() == new
                    &&& final(self).watermark() == rewound(old(self).watermark(), new)
                },
                Err(_) => {
                    &&& final(self).cursor() == old(self).cursor()
                    &&& final(self).watermark() == old(self).watermark()
                },
            },
    {
        if let Ok(new) = &landed {
            self.pos = *new;
            if *new < self.advised {
                self.advised = floor_to_page(*new);
            }
        }
        landed
    }
}

fn floor_to_page(pos: u64) -> (f: u64)
    ensures
        f == page_floor(pos),
        f % PAGE == 0,
        f <= pos < f + PAGE,
{
    let f: u64 = pos - pos % PAGE;
    assert(f % 4096 == 0);
    f
}

/// Dropping never touches the page being read: every advised range is made of whole
/// pages and ends at or before the page of the cursor.
pub proof fn law_advice_stays_behind_the_cursor(cursor: u64, watermark: u64)
    requires
        watermark % PAGE == 0,
        page_floor(cursor) - watermark >= ADVISE_THRESHOLD,
    ensures
        watermark + (page_floor(cursor) - watermark) <= cursor,
        (page_floor(cursor) - watermark) % PAGE as int == 0,
        cursor - page_floor(cursor) < PAGE,
{
}

/// A seek never leaves the watermark ahead of the cursor or inside a page, and moves it only
/// where it has to: what is read again after going back can be dropped again, from the page of
/// the new position on, and nothing is dropped twice otherwise.
pub proof fn law_seek_rewinds_the_watermark(watermark: u64, new: u64)
    requires
        watermark % PAGE == 0,
    ensures
        rewound(watermark, new) <= new,
        rewound(watermark, new) <= watermark,
        rewound(watermark, new) % PAGE == 0,
        new >= watermark ==> rewound(watermark, new) == watermark,
        new < watermark ==> new - rewound(watermark, new) < PAGE,
{
}

/// Reading moves the cursor by what was read. A range is dropped as soon as, and only if, the
/// whole pages between what was dropped before and the cursor make up four mebibytes: it starts
/// where the last one ended and ends with the page before the cursor's.
pub proof fn law_read_pages_are_dropped_once<R>(a: &mut FadviseReader<R>, n: u64, r: Option<Advice>)
    requires
        call_ensures(FadviseReader::<R>::note_read, (a, n), r),
        old(a).wf(),
        old(a).cursor() + n <= u64::MAX,
    ensures
        final(a).cursor() == old(a).cursor() + n,
        final(a).source() == old(a).source(),
        r is Some <==> final(a).cursor() - final(a).cursor() % 4096 >= old(a).watermark()
            + 4_194_304,
        r matches Some(d) ==> {
            &&& d.offset == old(a).watermark()
            &&& d.offset + d.len == final(a).watermark()
            &&& final(a).watermark() == final(a).cursor() - final(a).cursor() % 4096
        },
        r is None ==> final(a).watermark() == old(a).watermark(),
{
}

/// A seek is passed on as it came; one that landed moves the cursor there, and going back behind
/// what was dropped lets it be dropped again, from the page of the new place on.
pub proof fn law_seek_is_passed_on<R, E>(
    a: &mut FadviseReader<R>,
    landed: Result<u64, E>,
    r: Result<u64, E>,
)
    requires
        call_ensures(FadviseReader::<R>::seek::<E>, (a, landed), r),
        old(a).wf(),
    ensures
        r == landed,
        final(a).source() == old(a).source(),
        landed is Err ==> final(a).cursor() == old(a).cursor() && final(a).watermark() == old(
            a,
        ).watermark(),
        landed matches Ok(new) ==> {
            &&& final(a).cursor() == new
            &&& new >= old(a).watermark() ==> final(a).watermark() == old(a).watermark()
            &&& new < old(a).watermark() ==> final(a).watermark() == new - new % 4096
        },
{
}

/// A new reader has read and dropped nothing.
pub proof fn law_new_reader_has_dropped_nothing<R>(
    inner: R,
    r: FadviseReader<R>,
    s: FadviseReader<R>,
    n: u64,
)
    requires
        call_ensures(FadviseReader::<R>::new, (inner,), r),
        call_ensures(FadviseReader::<R>::advised, (&s,), n),
    ensures
        r.source() == inner,
        r.cursor() == 0,
        r.watermark() == 0,
        n == s.watermark(),
{
}

/// The reader inside is handed out as it is, and what becomes of it changes nothing else.
pub proof fn law_reader_is_handed_out<R>(a: &mut FadviseReader<R>, r: &mut R)
    requires
        call_ensures(FadviseReader::<R>::get_mut, (a,), r),
    ensures
        *old(r) == old(a).source(),
        final(a).source() == *final(r),
        final(a).cursor() == old(a).cursor(),
        final(a).watermark() == old(a).watermark(),
{
}

} // verus!
