//! What can go wrong on the way from a file to the device.
use crate::text::push_decimal;
use vstd::prelude::*;
use vstd::string::*;

verus! {

#[derive(Debug)]
pub enum Error {
    /// The decoder failed; the text is the decoder's own.
    Symphonia(String),
    /// The sound driver failed; the text is the driver's own.
    Alsa(String),
    /// The operating system failed; the text is its own.
    Io(String),
    /// The device would run at another rate than the file's.
    RateMismatch { requested: u32, actual: u32 },
    /// The file holds no audio track.
    NoTrack,
    Dsd(String),
    Unsupported(String),
}

impl Error {
    /// The sentence shown to the user.
    pub open spec fn text(self) -> Seq<char> {
        match self {
            Error::Symphonia(s) => "decode error: "@ + s@,
            Error::Alsa(s) => "ALSA error: "@ + s@,
            Error::Io(s) => "io error: "@ + s@,
            Error::RateMismatch { requested, actual } => "device rejected exact rate "@
                + crate::text::decimal(requested as nat) + " Hz (set "@ + crate::text::decimal(
                actual as nat,
            ) + " Hz) \u{2014} refusing to resample"@,
            Error::NoTrack => "no decodable audio track found"@,
            Error::Dsd(s) => "DSD source error: "@ + s@,
            Error::Unsupported(s) => "unsupported: "@ + s@,
        }
    }

    pub fn message(&self) -> (r: String)
        ensures
            r@ == self.text(),
    {
        match self {
            Error::Symphonia(s) => prefixed("decode error: ", s),
            Error::Alsa(s) => prefixed("ALSA error: ", s),
            Error::Io(s) => prefixed("io error: ", s),
            Error::RateMismatch { requested, actual } => {
                let mut r = String::from_str("device rejected exact rate ");
                push_decimal(&mut r, *requested as u64);
                r.append(" Hz (set ");
                push_decimal(&mut r, *actual as u64);
                r.append(" Hz) \u{2014} refusing to resample");
                r
            },
            Error::NoTrack => String::from_str("no decodable audio track found"),
            Error::Dsd(s) => prefixed("DSD source error: ", s),
            Error::Unsupported(s) => prefixed("unsupported: ", s),
        }
    }
}

fn prefixed(head: &str, tail: &String) -> (r: String)
    ensures
        r@ == head@ + tail@,
{
    let mut r = String::from_str(head);
    r.append(tail.as_str());
    r
}

/// What can go wrong in the library: the database, the files, their tags, the watcher. Each
/// text is the failing part's own.
#[derive(Debug)]
pub enum LibError {
    Db(String),
    Io(String),
    Tag(String),
    Watch(String),
    Other(String),
}

impl LibError {
    /// The sentence shown to the user.
    pub open spec fn text(self) -> Seq<char> {
        match self {
            LibError::Db(s) => "database error: "@ + s@,
            LibError::Io(s) => "io error: "@ + s@,
            LibError::Tag(s) => "tag error: "@ + s@,
            LibError::Watch(s) => "watch error: "@ + s@,
            LibError::Other(s) => "library: "@ + s@,
        }
    }

    pub fn message(&self) -> (r: String)
        ensures
            r@ == self.text(),
    {
        match self {
            LibError::Db(s) => prefixed("database error: ", s),
            LibError::Io(s) => prefixed("io error: ", s),
            LibError::Tag(s) => prefixed("tag error: ", s),
            LibError::Watch(s) => prefixed("watch error: ", s),
            LibError::Other(s) => prefixed("library: ", s),
        }
    }
}

/// A failure of the library among those of the player.
pub fn to_core_err(e: LibError) -> (r: Error)
    ensures
        r matches Error::Unsupported(s) && s@ == e.text(),
{
    Error::Unsupported(e.message())
}

/// Every message ends in what went wrong, behind the part of the player where it did; a refused
/// rate tells both rates, the one asked for first.
pub proof fn law_messages_tell_what_failed(e: Error, m: String, l: LibError, k: String)
    requires
        call_ensures(Error::message, (&e,), m),
        call_ensures(LibError::message, (&l,), k),
    ensures
        e matches Error::Symphonia(s) ==> m@ == "decode error: "@ + s@,
        e matches Error::Alsa(s) ==> m@ == "ALSA error: "@ + s@,
        e matches Error::Io(s) ==> m@ == "io error: "@ + s@,
        e matches Error::Dsd(s) ==> m@ == "DSD source error: "@ + s@,
        e matches Error::Unsupported(s) ==> m@ == "unsupported: "@ + s@,
        e is NoTrack ==> m@ == "no decodable audio track found"@,
        e matches Error::RateMismatch { requested, actual } ==> m@ == "device rejected exact rate "@
            + crate::text::decimal(requested as nat) + " Hz (set "@ + crate::text::decimal(
            actual as nat,
        ) + " Hz) \u{2014} refusing to resample"@,
        l matches LibError::Db(s) ==> k@ == "database error: "@ + s@,
        l matches LibError::Io(s) ==> k@ == "io error: "@ + s@,
        l matches LibError::Tag(s) ==> k@ == "tag error: "@ + s@,
        l matches LibError::Watch(s) ==> k@ == "watch error: "@ + s@,
        l matches LibError::Other(s) ==> k@ == "library: "@ + s@,
{
}

/// A failure of the library keeps its message among those of the player.
pub proof fn law_library_errors_keep_their_message(l: LibError, k: String, e: Error)
    requires
        call_ensures(LibError::message, (&l,), k),
        call_ensures(to_core_err, (l,), e),
    ensures
        e matches Error::Unsupported(s) && s@ == k@,
{
}

} // verus!
