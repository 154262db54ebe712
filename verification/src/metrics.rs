//! Wrapper-side counters for the top-of-feed status bar, and how byte
//! counts and uptimes are written there.
use vstd::prelude::*;
use vstd::arithmetic::div_mod::{lemma_fundamental_div_mod, lemma_mod_pos_bound};
use crate::text::{decimal, decimal_padded, digit_char, push_decimal, push_char};

verus! {

/// `std::time::Instant`, a reading of the monotonic clock; opaque here.
#[verifier::external_type_specification]
#[verifier::external_body]
pub struct ExInstant(std::time::Instant);

/// The monotonic clock now, by `std::time::Instant::now`. Nothing is claimed
/// of the value.
#[verifier::external_body]
fn instant_now() -> std::time::Instant {
    std::time::Instant::now()
}

/// Whole seconds since `start`, by `Instant::elapsed` and
/// `Duration::as_secs`. Nothing is claimed of the value.
#[verifier::external_body]
fn elapsed_secs(start: &std::time::Instant) -> u64 {
    start.elapsed().as_secs()
}

#[derive(Copy, Clone)]
pub struct Metrics {
    /// When the wrapper started, by the monotonic clock.
    pub started_at: std::time::Instant,
    pub entries_received: u64,
    pub updates_received: u64,
    pub updates_orphaned: u64,
    pub agent_connections: u64,
    pub agent_bytes: u64,
    pub accept_errors: u64,
    pub parse_errors: u64,
}

impl Default for Metrics {
    /// All counters at zero, started now.
    fn default() -> (res: Self)
        ensures
            res.counters() == seq![0u64, 0, 0, 0, 0, 0, 0],
    {
        Metrics {
            started_at: instant_now(),
            entries_received: 0,
            updates_received: 0,
            updates_orphaned: 0,
            agent_connections: 0,
            agent_bytes: 0,
            accept_errors: 0,
            parse_errors: 0,
        }
    }
}

impl Metrics {
    /// The counters, in field order: entries, updates, orphaned updates,
    /// agent connections, agent bytes, accept errors, parse errors.
    pub open spec fn counters(self) -> Seq<u64> {
        seq![
            self.entries_received,
            self.updates_received,
            self.updates_orphaned,
            self.agent_connections,
            self.agent_bytes,
            self.accept_errors,
            self.parse_errors,
        ]
    }

    /// How long the wrapper has been up, in whole seconds. The value is a
    /// reading of the monotonic clock, so no clause states it; `format_uptime`
    /// states what is shown for each value.
    pub fn uptime(&self) -> u64 {
        elapsed_secs(&self.started_at)
    }
}

pub const KB: u64 = 1024;

pub const MB: u64 = 1048576;

pub const GB: u64 = 1073741824;

/// The spacing of 64-bit floats around `b`: 1 below 2^53, doubling with
/// each power of two above.
pub open spec fn f64_spacing(b: nat) -> nat {
    if b < 0x20_0000_0000_0000 {
        1
    } else if b < 0x40_0000_0000_0000 {
        2
    } else if b < 0x80_0000_0000_0000 {
        4
    } else if b < 0x100_0000_0000_0000 {
        8
    } else if b < 0x200_0000_0000_0000 {
        16
    } else if b < 0x400_0000_0000_0000 {
        32
    } else if b < 0x800_0000_0000_0000 {
        64
    } else if b < 0x1000_0000_0000_0000 {
        128
    } else if b < 0x2000_0000_0000_0000 {
        256
    } else if b < 0x4000_0000_0000_0000 {
        512
    } else if b < 0x8000_0000_0000_0000 {
        1024
    } else {
        2048
    }
}

/// `b as f64`: `b` rounded to the nearest 64-bit float, ties to the even
/// significand.
pub open spec fn f64_of(b: nat) -> nat {
    let p = f64_spacing(b);
    let q = b / p;
    let r = b % p;
    if p > 1 && (2 * r > p || (2 * r == p && q % 2 == 1)) {
        (q + 1) * p
    } else {
        q * p
    }
}

/// `v / d` in tenths, rounded to nearest with ties to even, as `{:.1}`
/// rounds the exact quotient.
pub open spec fn round_tenths(v: nat, d: nat) -> nat {
    let t = v * 10 / d;
    let rem = v * 10 % d;
    if 2 * rem > d || (2 * rem == d && t % 2 == 1) {
        t + 1
    } else {
        t
    }
}

/// `{:.1}` of `b as f64 / d`, then the unit.
pub open spec fn spec_scaled(b: nat, d: nat, unit: char) -> Seq<char> {
    let t = round_tenths(f64_of(b), d);
    decimal(t / 10) + seq!['.', digit_char(t % 10), unit]
}

/// A byte count as the status bar shows it: `512B`, `1.5K`, `2.0M`,
/// `3.0G`, with one decimal from 1 KiB up.
pub open spec fn spec_format_bytes(b: nat) -> Seq<char> {
    if b >= GB {
        spec_scaled(b, GB as nat, 'G')
    } else if b >= MB {
        spec_scaled(b, MB as nat, 'M')
    } else if b >= KB {
        spec_scaled(b, KB as nat, 'K')
    } else {
        decimal(b) + seq!['B']
    }
}

fn f64_spacing_of(b: u64) -> (p: u64)
    ensures
        p == f64_spacing(b as nat),
        1 <= p <= 2048,
{
    if b < 0x20_0000_0000_0000 {
        1
    } else if b < 0x40_0000_0000_0000 {
        2
    } else if b < 0x80_0000_0000_0000 {
        4
    } else if b < 0x100_0000_0000_0000 {
        8
    } else if b < 0x200_0000_0000_0000 {
        16
    } else if b < 0x400_0000_0000_0000 {
        32
    } else if b < 0x800_0000_0000_0000 {
        64
    } else if b < 0x1000_0000_0000_0000 {
        128
    } else if b < 0x2000_0000_0000_0000 {
        256
    } else if b < 0x4000_0000_0000_0000 {
        512
    } else if b < 0x8000_0000_0000_0000 {
        1024
    } else {
        2048
    }
}

/// `{:.1}` of `b as f64 / d` followed by `unit`.
fn scaled(b: u64, d: u64, unit: char) -> (res: String)
    requires
        KB <= d,
    ensures
        res@ == spec_scaled(b as nat, d as nat, unit),
{
    let p = f64_spacing_of(b);
    let q = b / p;
    let r = b % p;
    proof {
        lemma_fundamental_div_mod(b as int, p as int);
        lemma_mod_pos_bound(b as int, p as int);
        assert(q * p <= b) by (nonlinear_arith)
            requires
                b == p * q + r,
                0 <= r,
        ;
    }
    let up = p > 1 && (2 * r > p || (2 * r == p && q % 2 == 1));
    let qq: u128 = if up {
        q as u128 + 1
    } else {
        q as u128
    };
    proof {
        assert(qq * p <= 0x1_0000_0000_0000_0000 + 2048) by (nonlinear_arith)
            requires
                q * p <= b,
                b < 0x1_0000_0000_0000_0000,
                qq <= q + 1,
                1 <= p <= 2048,
        ;
    }
    let v: u128 = qq * (p as u128);
    assert(v == f64_of(b as nat));
    let x: u128 = v * 10;
    let t0: u128 = x / (d as u128);
    let rem: u128 = x % (d as u128);
    proof {
        lemma_fundamental_div_mod(x as int, d as int);
        lemma_mod_pos_bound(x as int, d as int);
        assert(t0 < 0x1000_0000_0000_0000) by (nonlinear_arith)
            requires
                x == d * t0 + rem,
                0 <= rem,
                1024 <= d,
                x <= (0x1_0000_0000_0000_0000 + 2048) * 10,
        ;
    }
    let t: u128 = if 2 * rem > d as u128 || (2 * rem == d as u128 && t0 % 2 == 1) {
        t0 + 1
    } else {
        t0
    };
    assert(t == round_tenths(f64_of(b as nat), d as nat));
    let whole: u64 = (t / 10) as u64;
    let frac: u8 = (t % 10) as u8;
    let mut s = String::new();
    push_decimal(&mut s, whole);
    push_char(&mut s, '.');
    push_char(&mut s, (48u8 + frac) as char);
    push_char(&mut s, unit);
    assert(s@ =~= spec_scaled(b as nat, d as nat, unit));
    s
}

/// A byte count for the status bar: whole bytes below 1 KiB, else one
/// decimal of KiB, MiB or GiB.
pub fn format_bytes(b: u64) -> (res: String)
    ensures
        res@ == spec_format_bytes(b as nat),
{
    if b >= GB {
        scaled(b, GB, 'G')
    } else if b >= MB {
        scaled(b, MB, 'M')
    } else if b >= KB {
        scaled(b, KB, 'K')
    } else {
        let mut s = String::new();
        push_decimal(&mut s, b);
        push_char(&mut s, 'B');
        s
    }
}

/// An uptime for the status bar: `1h01m` from an hour up, `1m05s` from a
/// minute up, `5s` below.
pub open spec fn spec_format_uptime(s: nat) -> Seq<char> {
    let h = s / 3600;
    let m = (s % 3600) / 60;
    let sec = s % 60;
    if h > 0 {
        decimal(h) + seq!['h'] + decimal_padded(m, 2) + seq!['m']
    } else if m > 0 {
        decimal(m) + seq!['m'] + decimal_padded(sec, 2) + seq!['s']
    } else {
        decimal(sec) + seq!['s']
    }
}

/// Appends `n` (below 100) with at least two digits.
fn push_two_digits(s: &mut String, n: u64)
    requires
        n < 100,
    ensures
        final(s)@ == old(s)@ + decimal_padded(n as nat, 2),
{
    if n < 10 {
        push_char(s, '0');
        proof {
            reveal_with_fuel(decimal, 2);
            assert(Seq::new(1, |i: int| '0') =~= seq!['0']);
        }
    } else {
        proof {
            reveal_with_fuel(decimal, 3);
        }
    }
    push_decimal(s, n);
    proof {
        if n < 10 {
            assert(decimal_padded(n as nat, 2) =~= seq!['0'] + decimal(n as nat));
        }
    }
}

/// The uptime `secs` as the status bar shows it.
pub fn format_uptime(secs: u64) -> (res: String)
    ensures
        res@ == spec_format_uptime(secs as nat),
{
    let h = secs / 3600;
    let m = (secs % 3600) / 60;
    let sec = secs % 60;
    let mut s = String::new();
    if h > 0 {
        push_decimal(&mut s, h);
        push_char(&mut s, 'h');
        push_two_digits(&mut s, m);
        push_char(&mut s, 'm');
    } else if m > 0 {
        push_decimal(&mut s, m);
        push_char(&mut s, 'm');
        push_two_digits(&mut s, sec);
        push_char(&mut s, 's');
    } else {
        push_decimal(&mut s, sec);
        push_char(&mut s, 's');
    }
    assert(s@ =~= spec_format_uptime(secs as nat));
    s
}

/// The status bar line.
pub open spec fn spec_metrics_line(c: Seq<u64>, agents: nat, fd: Option<nat>, uptime: nat) -> Seq<char> {
    " agents "@ + decimal(agents) + " · entries "@ + decimal(c[0] as nat) + " · updates "@ + decimal(c[1] as nat)
        + " ("@ + decimal(c[2] as nat) + " orph) · bytes "@ + spec_format_bytes(c[4] as nat) + " · conns "@
        + decimal(c[3] as nat) + " · err "@ + decimal(c[5] as nat) + "/"@ + decimal(c[6] as nat) + " · fd "@
        + match fd {
        Some(n) => decimal(n),
        None => "?"@,
    } + " · up "@ + spec_format_uptime(uptime)
}

/// The `top`-style status bar line for `agents` rings, the process's open
/// descriptor count (`None` when unknown) and the uptime in seconds.
pub fn metrics_line(m: &Metrics, agents: usize, fd: Option<usize>, uptime_secs: u64) -> (res: String)
    ensures
        res@ == spec_metrics_line(
            m.counters(),
            agents as nat,
            match fd {
                Some(n) => Some(n as nat),
                None => None,
            },
            uptime_secs as nat,
        ),
{
    let mut s = String::from_str(" agents ");
    push_decimal(&mut s, agents as u64);
    s.append(" · entries ");
    push_decimal(&mut s, m.entries_received);
    s.append(" · updates ");
    push_decimal(&mut s, m.updates_received);
    s.append(" (");
    push_decimal(&mut s, m.updates_orphaned);
    s.append(" orph) · bytes ");
    s.append(format_bytes(m.agent_bytes).as_str());
    s.append(" · conns ");
    push_decimal(&mut s, m.agent_connections);
    s.append(" · err ");
    push_decimal(&mut s, m.accept_errors);
    s.append("/");
    push_decimal(&mut s, m.parse_errors);
    s.append(" · fd ");
    match fd {
        Some(n) => push_decimal(&mut s, n as u64),
        None => s.append("?"),
    }
    s.append(" · up ");
    s.append(format_uptime(uptime_secs).as_str());
    proof {
        let f = match fd {
            Some(n) => Some(n as nat),
            None => None,
        };
        assert(s@ =~= spec_metrics_line(m.counters(), agents as nat, f, uptime_secs as nat));
    }
    s
}


/// Law: the status line reads, field by field, the ring count given as
/// `agents`, then each named counter of `m` where its label says (entries,
/// updates with orphans, bytes, connections, accept and parse errors), the
/// descriptor count (`?` when unknown) and the uptime. So the number after
/// ` agents ` is the `agents` argument whatever the counters hold, and each
/// counter shows under its own label.
pub proof fn law_metrics_line_fields(m: Metrics, agents: nat, fd: Option<nat>, uptime: nat)
    ensures
        spec_metrics_line(m.counters(), agents, fd, uptime) == " agents "@ + decimal(agents) + " · entries "@
            + decimal(m.entries_received as nat) + " · updates "@ + decimal(m.updates_received as nat) + " ("@
            + decimal(m.updates_orphaned as nat) + " orph) · bytes "@ + spec_format_bytes(m.agent_bytes as nat)
            + " · conns "@ + decimal(m.agent_connections as nat) + " · err "@ + decimal(m.accept_errors as nat)
            + "/"@ + decimal(m.parse_errors as nat) + " · fd "@ + (match fd {
            Some(n) => decimal(n),
            None => "?"@,
        }) + " · up "@ + spec_format_uptime(uptime),
{
}

} // verus!
