//! Sending an idle machine to sleep, but never while it plays or a DAC is connected.
use crate::span::Span;
use crate::text::{chars_of, numeral, parse_numeral, trim_of, trimmed};
use vstd::prelude::*;

verus! {

/// When to suspend.
pub struct Standby {
    /// How long to be idle first.
    pub timeout: Span,
    /// How often to look.
    pub poll: Span,
    /// A command to run before.
    pub enter_cmd: Option<String>,
}

/// Seconds from a setting.
pub open spec fn secs_of(v: Option<Seq<char>>) -> Option<nat> {
    match v {
        Some(s) => numeral(trimmed(s), u64::MAX as nat),
        None => None,
    }
}

pub fn env_secs(v: Option<&str>) -> (r: Option<Span>)
    ensures
        match secs_of(
            match v {
                Some(s) => Some(s@),
                None => None,
            },
        ) {
            Some(n) => r matches Some(s) && s.nanos == n * 1_000_000_000,
            None => r is None,
        },
{
    match v {
        None => None,
        Some(s) => {
            let c = chars_of(s);
            match parse_numeral(trim_of(c.as_slice()), u64::MAX) {
                Some(n) => Some(Span::from_secs(n)),
                None => None,
            }
        },
    }
}

impl Standby {
    /// The settings, if standby is asked for: it takes a timeout that is not zero. Without
    /// an interval it looks every twenty seconds, and never more often than every second.
    pub fn from_env(timeout: Option<&str>, poll: Option<&str>, cmd: Option<String>) -> (r: Option<
        Self,
    >)
        ensures
            ({
                let t = secs_of(
                    match timeout {
                        Some(s) => Some(s@),
                        None => None,
                    },
                );
                let p = secs_of(
                    match poll {
                        Some(s) => Some(s@),
                        None => None,
                    },
                );
                &&& r is Some <==> (t matches Some(n) && n > 0)
                &&& r matches Some(s) ==> {
                    &&& s.timeout.nanos == t->0 * 1_000_000_000
                    &&& s.poll.nanos == (match p {
                        Some(n) => if n < 1 {
                            1
                        } else {
                            n
                        },
                        None => 20,
                    }) * 1_000_000_000
                    &&& s.enter_cmd == (match cmd {
                        Some(c) => if trimmed(c@).len() > 0 {
                            Some(c)
                        } else {
                            None
                        },
                        None => None,
                    })
                }
            }),
    {
        let t = match env_secs(timeout) {
            Some(t) => t,
            None => return None,
        };
        if t.nanos == 0 {
            return None;
        }
        let p = match env_secs(poll) {
            Some(p) => p,
            None => Span::from_secs(20),
        };
        let one = Span::from_secs(1);
        let poll_span = if p.nanos < one.nanos {
            one
        } else {
            p
        };
        let enter_cmd = match cmd {
            Some(c) => {
                let chars = chars_of(c.as_str());
                if trim_of(chars.as_slice()).len() > 0 {
                    Some(c)
                } else {
                    None
                }
            },
            None => None,
        };
        Some(Standby { timeout: t, poll: poll_span, enter_cmd })
    }
}

/// Whether to suspend now: nothing plays, no DAC is connected, and the time has passed.
pub open spec fn suspends(idle: nat, dac: bool, busy: bool, timeout: nat) -> bool {
    !dac && !busy && idle >= timeout
}

pub fn should_suspend(idle: Span, dac_present: bool, session_busy: bool, timeout: Span) -> (b: bool)
    ensures
        b == suspends(idle.nanos as nat, dac_present, session_busy, timeout.nanos as nat),
{
    !dac_present && !session_busy && idle.nanos >= timeout.nanos
}

/// What to do at a look.
#[derive(Clone, Copy, Debug, PartialEq, Eq, Structural)]
pub struct Tick {
    /// The machine is in use: keep it from sleeping, and let the idle time start again.
    pub in_use: bool,
    pub suspend: bool,
}

/// One look: playback, even paused, and a connected DAC keep the machine awake; otherwise it
/// is suspended once it was idle long enough.
pub open spec fn tick_of(playing: bool, paused: bool, dac: bool, idle: nat, timeout: nat) -> Tick {
    Tick {
        in_use: playing || paused || dac,
        suspend: suspends(idle, dac, playing || paused, timeout),
    }
}

pub fn tick(playing: bool, paused: bool, dac: bool, idle: Span, timeout: Span) -> (t: Tick)
    ensures
        t == tick_of(playing, paused, dac, idle.nanos as nat, timeout.nanos as nat),
{
    let busy = playing || paused;
    Tick { in_use: busy || dac, suspend: should_suspend(idle, dac, busy, timeout) }
}

/// What to do about the process that keeps the machine awake.
#[derive(Clone, Copy, Debug, PartialEq, Eq, Structural)]
pub enum InhibitStep {
    Spawn,
    Kill,
    Keep,
}

pub fn set_inhibited(want: bool, have: bool) -> (s: InhibitStep)
    ensures
        s == (if want && !have {
            InhibitStep::Spawn
        } else if !want && have {
            InhibitStep::Kill
        } else {
            InhibitStep::Keep
        }),
{
    if want && !have {
        InhibitStep::Spawn
    } else if !want && have {
        InhibitStep::Kill
    } else {
        InhibitStep::Keep
    }
}

/// The machine never sleeps over music: with a DAC connected, or a track playing or paused,
/// no idle time is long enough.
pub proof fn law_never_suspends_in_use(
    playing: bool,
    paused: bool,
    dac: bool,
    idle: nat,
    timeout: nat,
)
    requires
        tick_of(playing, paused, dac, idle, timeout).in_use,
    ensures
        !tick_of(playing, paused, dac, idle, timeout).suspend,
{
}

/// An unused machine sleeps exactly from the moment the time has passed.
pub proof fn law_unused_machine_sleeps(idle: nat, timeout: nat)
    ensures
        tick_of(false, false, false, idle, timeout).suspend <==> idle >= timeout,
{
}

/// The machine is suspended only if nothing plays, not even paused, and no DAC is connected, and
/// then exactly once it was idle for the timeout; it is in use exactly otherwise.
pub proof fn law_tick_decides(
    playing: bool,
    paused: bool,
    dac: bool,
    idle: Span,
    timeout: Span,
    t: Tick,
    b: bool,
)
    requires
        call_ensures(tick, (playing, paused, dac, idle, timeout), t),
        call_ensures(should_suspend, (idle, dac, playing, timeout), b),
    ensures
        t.in_use <==> playing || paused || dac,
        t.suspend <==> !playing && !paused && !dac && idle.nanos >= timeout.nanos,
        b <==> !dac && !playing && idle.nanos >= timeout.nanos,
{
}

/// Sleep is held off as soon as it has to be, and no longer than that.
pub proof fn law_inhibitor_follows(want: bool, have: bool, s: InhibitStep)
    requires
        call_ensures(set_inhibited, (want, have), s),
    ensures
        s == InhibitStep::Spawn <==> want && !have,
        s == InhibitStep::Kill <==> !want && have,
        s == InhibitStep::Keep <==> want == have,
{
}

/// Standby is on exactly if a timeout of some seconds is set. The machine is looked at every so
/// many seconds as set, every second at most, every twenty if nothing is set; a blank command
/// is none.
pub proof fn law_standby_goes_by_the_settings(
    timeout: Option<&str>,
    poll: Option<&str>,
    cmd: Option<String>,
    r: Option<Standby>,
    t: Option<Span>,
    p: Option<Span>,
)
    requires
        call_ensures(Standby::from_env, (timeout, poll, cmd), r),
        call_ensures(env_secs, (timeout,), t),
        call_ensures(env_secs, (poll,), p),
    ensures
        r is Some <==> (t matches Some(s) && s.nanos > 0),
        r matches Some(s) ==> {
            &&& t == Some(s.timeout)
            &&& p is None ==> s.poll.nanos == 20_000_000_000
            &&& p matches Some(q) ==> {
                &&& q.nanos >= 1_000_000_000 ==> s.poll == q
                &&& q.nanos < 1_000_000_000 ==> s.poll.nanos == 1_000_000_000
            }
            &&& cmd is None ==> s.enter_cmd is None
            &&& cmd matches Some(c) ==> {
                &&& trimmed(c@).len() > 0 ==> s.enter_cmd == Some(c)
                &&& trimmed(c@).len() == 0 ==> s.enter_cmd is None
            }
        },
{
}

/// A setting counts seconds: the number that stands in it, white space aside. Without a number
/// there is none.
pub proof fn law_settings_count_seconds(v: Option<&str>, r: Option<Span>)
    requires
        call_ensures(env_secs, (v,), r),
    ensures
        v is None ==> r is None,
        v matches Some(s) ==> {
            &&& numeral(trimmed(s@), u64::MAX as nat) is None <==> r is None
            &&& numeral(trimmed(s@), u64::MAX as nat) matches Some(n) ==> (r matches Some(t)
                && t.nanos == n * 1_000_000_000)
        },
{
}

} // verus!
