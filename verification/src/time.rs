//! Simulation time and durations, and the duration syntax of experiment files.

use vstd::prelude::*;
use vstd::string::*;
use crate::text::{char_string, decimal, digit_char};

verus! {

/// Simulation time, independent of wall-clock time. One tick is one simulated second.
#[derive(Debug, Clone, Copy, PartialEq, Eq, Structural, PartialOrd, Ord)]
pub struct SimTime(pub u64);

/// A span of simulated seconds.
#[derive(Debug, Clone, Copy, PartialEq, Eq, Structural)]
pub struct Duration(pub u64);

/// The time `rhs` after `self`; defined while it fits.
impl std::ops::Add<Duration> for SimTime {
    type Output = SimTime;

    fn add(self, rhs: Duration) -> (r: SimTime) {
        SimTime(self.0 + rhs.0)
    }
}

impl vstd::std_specs::ops::AddSpecImpl<Duration> for SimTime {
    open spec fn obeys_add_spec() -> bool {
        true
    }

    open spec fn add_req(self, rhs: Duration) -> bool {
        self.0 + rhs.0 <= u64::MAX
    }

    open spec fn add_spec(self, rhs: Duration) -> SimTime {
        SimTime((self.0 + rhs.0) as u64)
    }
}

impl Duration {
    pub fn seconds(n: u64) -> (d: Duration)
        ensures
            d.0 == n,
    {
        Duration(n)
    }

    pub fn minutes(n: u64) -> (d: Duration)
        requires
            n * 60 <= u64::MAX,
        ensures
            d.0 == n * 60,
    {
        Duration(n * 60)
    }

    pub fn hours(n: u64) -> (d: Duration)
        requires
            n * 3600 <= u64::MAX,
        ensures
            d.0 == n * 3600,
    {
        Duration(n * 3600)
    }

    pub fn days(n: u64) -> (d: Duration)
        requires
            n * 86400 <= u64::MAX,
        ensures
            d.0 == n * 86400,
    {
        Duration(n * 86400)
    }
}


/// Whether `c` is an ASCII decimal digit.
pub open spec fn is_digit(c: char) -> bool {
    '0' <= c && c <= '9'
}

/// The value of the ASCII digit `c`.
pub open spec fn digit_value(c: char) -> int {
    c as int - '0' as int
}

/// The value of a string of decimal digits (0 for the empty string).
pub open spec fn decimal_value(ds: Seq<char>) -> int
    decreases ds.len(),
{
    if ds.len() == 0 {
        0
    } else {
        decimal_value(ds.drop_last()) * 10 + digit_value(ds.last())
    }
}

/// Seconds per unit of the duration syntax: `s`, `m`, `h`, `d`.
pub open spec fn unit_seconds(c: char) -> Option<int> {
    if c == 's' {
        Some(1)
    } else if c == 'm' {
        Some(60)
    } else if c == 'h' {
        Some(3600)
    } else if c == 'd' {
        Some(86400)
    } else {
        None
    }
}

pub open spec fn unit_without_number_message(c: char) -> Seq<char> {
    "duration has unit `"@ + seq![c] + "` without a number"@
}

pub open spec fn invalid_number_message(ds: Seq<char>) -> Seq<char> {
    "invalid duration number `"@ + ds + "`"@
}

pub open spec fn unknown_unit_message(c: char) -> Seq<char> {
    "unknown duration unit `"@ + seq![c] + "`"@
}

pub open spec fn overflow_message() -> Seq<char> {
    "duration overflow"@
}

pub open spec fn missing_unit_message() -> Seq<char> {
    "duration must end in s, m, h, or d"@
}

pub open spec fn empty_message() -> Seq<char> {
    "duration is empty"@
}

/// What has been read of a duration so far: the seconds of the finished
/// components, the digits of the pending number, and whether a component ended.
pub struct ScanState {
    pub total: int,
    pub digits: Seq<char>,
    pub saw_component: bool,
}

pub open spec fn scan_start() -> ScanState {
    ScanState { total: 0, digits: Seq::empty(), saw_component: false }
}

/// Reading one more character `c` in state `st`: a digit extends the pending
/// number; a unit closes a component; anything else is an error message.
pub open spec fn scan_step(st: ScanState, c: char) -> Result<ScanState, Seq<char>> {
    if is_digit(c) {
        Ok(ScanState { digits: st.digits.push(c), ..st })
    } else if st.digits.len() == 0 {
        Err(unit_without_number_message(c))
    } else if decimal_value(st.digits) > u64::MAX {
        Err(invalid_number_message(st.digits))
    } else {
        match unit_seconds(c) {
            None => Err(unknown_unit_message(c)),
            Some(m) => {
                let part = decimal_value(st.digits) * m;
                if part > u64::MAX || st.total + part > u64::MAX {
                    Err(overflow_message())
                } else {
                    Ok(ScanState { total: st.total + part, digits: Seq::empty(), saw_component: true })
                }
            },
        }
    }
}

/// The state after reading all of `s` from `st`, or the first error.
pub open spec fn scan_from(st: ScanState, s: Seq<char>) -> Result<ScanState, Seq<char>>
    decreases s.len(),
{
    if s.len() == 0 {
        Ok(st)
    } else {
        match scan_from(st, s.drop_last()) {
            Err(e) => Err(e),
            Ok(prev) => scan_step(prev, s.last()),
        }
    }
}

/// The result of parsing `s` in the duration syntax (`30s`, `15m`, `2h30m`, `1d`).
pub open spec fn parse_duration(s: Seq<char>) -> Result<u64, Seq<char>> {
    match scan_from(scan_start(), s) {
        Err(e) => Err(e),
        Ok(st) => if st.digits.len() != 0 {
            Err(missing_unit_message())
        } else if !st.saw_component {
            Err(empty_message())
        } else {
            Ok(st.total as u64)
        },
    }
}

proof fn lemma_decimal_nonneg(ds: Seq<char>)
    requires
        forall|i: int| 0 <= i < ds.len() ==> is_digit(#[trigger] ds[i]),
    ensures
        decimal_value(ds) >= 0,
    decreases ds.len(),
{
    if ds.len() > 0 {
        let p = ds.drop_last();
        assert forall|i: int| 0 <= i < p.len() implies is_digit(#[trigger] p[i]) by {
            assert(p[i] == ds[i]);
        }
        lemma_decimal_nonneg(p);
        assert(is_digit(ds[ds.len() - 1]));
    }
}

proof fn lemma_decimal_step(ds: Seq<char>, c: char)
    requires
        is_digit(c),
        forall|i: int| 0 <= i < ds.len() ==> is_digit(#[trigger] ds[i]),
    ensures
        decimal_value(ds.push(c)) == decimal_value(ds) * 10 + digit_value(c),
        decimal_value(ds) >= 0,
{
    assert(ds.push(c).drop_last() =~= ds);
    lemma_decimal_nonneg(ds);
}

/// Once reading a prefix of `s` has failed, reading all of `s` fails the same way.
proof fn lemma_scan_error_persists(st: ScanState, s: Seq<char>, k: int)
    requires
        0 <= k <= s.len(),
        scan_from(st, s.take(k)) is Err,
    ensures
        scan_from(st, s) == scan_from(st, s.take(k)),
    decreases s.len(),
{
    if k == s.len() {
        assert(s.take(k) =~= s);
    } else {
        assert(s.drop_last().take(k) =~= s.take(k));
        lemma_scan_error_persists(st, s.drop_last(), k);
    }
}

/// A state reachable by reading: pending digits are digits and the total fits.
pub open spec fn scan_state_ok(st: ScanState) -> bool {
    &&& forall|i: int| 0 <= i < st.digits.len() ==> is_digit(#[trigger] st.digits[i])
    &&& 0 <= st.total <= u64::MAX
}

/// Reading keeps states well formed and never decreases the total.
proof fn lemma_scan_state_ok(st: ScanState, s: Seq<char>)
    requires
        scan_state_ok(st),
    ensures
        scan_from(st, s) matches Ok(r) ==> scan_state_ok(r) && r.total >= st.total,
    decreases s.len(),
{
    if s.len() > 0 {
        lemma_scan_state_ok(st, s.drop_last());
        match scan_from(st, s.drop_last()) {
            Err(_) => {},
            Ok(p) => {
                let c = s.last();
                if is_digit(c) {
                    let q = ScanState { digits: p.digits.push(c), ..p };
                    assert forall|i: int| 0 <= i < q.digits.len() implies is_digit(#[trigger] q.digits[i]) by {
                        if i < p.digits.len() {
                            assert(q.digits[i] == p.digits[i]);
                        }
                    }
                } else {
                    lemma_decimal_nonneg(p.digits);
                    if p.digits.len() != 0 && decimal_value(p.digits) <= u64::MAX {
                        match unit_seconds(c) {
                            None => {},
                            Some(m) => {
                                assert(decimal_value(p.digits) * m >= 0) by (nonlinear_arith)
                                    requires
                                        decimal_value(p.digits) >= 0,
                                        m >= 1,
                                ;
                            },
                        }
                    }
                }
            },
        }
    }
}

/// Reading `a + b` is reading `a`, then `b` from where `a` left off.
proof fn lemma_scan_concat(st: ScanState, a: Seq<char>, b: Seq<char>)
    ensures
        scan_from(st, a + b) == match scan_from(st, a) {
            Err(e) => Err(e),
            Ok(m) => scan_from(m, b),
        },
    decreases b.len(),
{
    if b.len() == 0 {
        assert(a + b =~= a);
    } else {
        assert((a + b).drop_last() =~= a + b.drop_last());
        assert((a + b).last() == b.last());
        lemma_scan_concat(st, a, b.drop_last());
    }
}

/// Reading from a state with no pending digits and `total` already counted
/// ends with that total added, as long as the sum fits.
proof fn lemma_scan_shift(b: Seq<char>, total: int, saw: bool)
    requires
        scan_from(scan_start(), b) is Ok,
        0 <= total,
        total + scan_from(scan_start(), b)->Ok_0.total <= u64::MAX,
    ensures
        ({
            let r = scan_from(scan_start(), b)->Ok_0;
            scan_from(ScanState { total, digits: Seq::empty(), saw_component: saw }, b) == Ok::<
                ScanState,
                Seq<char>,
            >(ScanState { total: total + r.total, digits: r.digits, saw_component: saw || r.saw_component })
        }),
    decreases b.len(),
{
    let st = ScanState { total, digits: Seq::empty(), saw_component: saw };
    if b.len() > 0 {
        let p = scan_from(scan_start(), b.drop_last())->Ok_0;
        assert(scan_from(scan_start(), b.drop_last()) is Ok);
        assert(scan_state_ok(scan_start()));
        lemma_scan_state_ok(scan_start(), b.drop_last());
        lemma_scan_state_ok(scan_start(), b);
        assert(seq![b.last()].drop_last() =~= Seq::<char>::empty());
        assert(scan_from(p, Seq::<char>::empty()) == Ok::<ScanState, Seq<char>>(p));
        assert(scan_from(p, seq![b.last()]) == scan_step(p, b.last()));
        assert(scan_from(scan_start(), b) == scan_step(p, b.last()));
        lemma_scan_state_ok(p, seq![b.last()]);
        lemma_scan_shift(b.drop_last(), total, saw);
    }
}

/// Durations compose: writing two valid durations one after the other gives
/// their sum (`2h` then `30m` is `2h30m`, 9000 seconds), as long as it fits.
pub proof fn lemma_parse_concat(a: Seq<char>, b: Seq<char>)
    requires
        parse_duration(a) is Ok,
        parse_duration(b) is Ok,
        parse_duration(a)->Ok_0 + parse_duration(b)->Ok_0 <= u64::MAX,
    ensures
        parse_duration(a + b) == Ok::<u64, Seq<char>>(
            (parse_duration(a)->Ok_0 + parse_duration(b)->Ok_0) as u64,
        ),
{
    let ra = scan_from(scan_start(), a)->Ok_0;
    let rb = scan_from(scan_start(), b)->Ok_0;
    assert(scan_state_ok(scan_start()));
    lemma_scan_state_ok(scan_start(), a);
    lemma_scan_state_ok(scan_start(), b);
    lemma_scan_concat(scan_start(), a, b);
    assert(ra == ScanState { total: ra.total, digits: Seq::empty(), saw_component: true });
    lemma_scan_shift(b, ra.total, true);
}

/// The decimal text of a number is all digits and reads back as the number.
proof fn lemma_decimal_reads_back(n: nat)
    ensures
        forall|i: int| 0 <= i < decimal(n).len() ==> is_digit(#[trigger] decimal(n)[i]),
        decimal_value(decimal(n)) == n,
        decimal(n).len() > 0,
    decreases n,
{
    let d = (n % 10) as nat;
    assert(digit_char(d) as int == 48 + d);
    assert(decimal(n).last() == digit_char(d));
    assert(digit_value(decimal(n).last()) == d);
    assert(n == (n / 10) * 10 + d);
    if n >= 10 {
        lemma_decimal_reads_back(n / 10);
        let ds = decimal(n / 10);
        assert(decimal(n).drop_last() =~= ds);
        assert(decimal_value(decimal(n)) == decimal_value(ds) * 10 + d);
        assert forall|i: int| 0 <= i < decimal(n).len() implies is_digit(#[trigger] decimal(n)[i]) by {
            if i < ds.len() {
                assert(decimal(n)[i] == ds[i]);
            }
        }
    } else {
        assert(decimal(n).drop_last() =~= Seq::<char>::empty());
        assert(decimal_value(Seq::<char>::empty()) == 0);
        assert(decimal_value(decimal(n)) == decimal_value(Seq::<char>::empty()) * 10 + d);
    }
}

/// Reading digits only collects them.
proof fn lemma_scan_digits(ds: Seq<char>)
    requires
        forall|i: int| 0 <= i < ds.len() ==> is_digit(#[trigger] ds[i]),
    ensures
        scan_from(scan_start(), ds) == Ok::<ScanState, Seq<char>>(
            ScanState { total: 0, digits: ds, saw_component: false },
        ),
    decreases ds.len(),
{
    if ds.len() > 0 {
        let p = ds.drop_last();
        assert forall|i: int| 0 <= i < p.len() implies is_digit(#[trigger] p[i]) by {
            assert(p[i] == ds[i]);
        }
        lemma_scan_digits(p);
        assert(is_digit(ds[ds.len() - 1]));
        assert(p.push(ds.last()) =~= ds);
    } else {
        assert(ds =~= Seq::<char>::empty());
    }
}

/// A number followed by a unit is that many units: `{n}s` is `n` seconds,
/// `{n}m` is `n` minutes, `{n}h` is `n` hours and `{n}d` is `n` days, as long
/// as the total fits.
pub proof fn lemma_parse_single_unit(n: u64, c: char)
    requires
        unit_seconds(c) is Some,
        n * unit_seconds(c)->0 <= u64::MAX,
    ensures
        parse_duration(decimal(n as nat) + seq![c]) == Ok::<u64, Seq<char>>((n * unit_seconds(c)->0) as u64),
{
    let ds = decimal(n as nat);
    lemma_decimal_reads_back(n as nat);
    lemma_scan_digits(ds);
    let s = ds + seq![c];
    assert(s.drop_last() =~= ds);
    assert(s.last() == c);
    assert(!is_digit(c));
}

impl Duration {
    /// Parses the small human-readable duration syntax used by experiment files.
    /// Examples: `30s`, `15m`, `2h30m`, `1d`.
    pub fn parse(input: &str) -> (r: Result<Duration, String>)
        ensures
            match parse_duration(input@) {
                Ok(v) => r matches Ok(d) && d.0 == v,
                Err(msg) => r matches Err(e) && e@ == msg,
            },
    {
        broadcast use vstd::string::group_string_axioms;
        let mut total: u64 = 0;
        let mut number = String::new();
        let mut value: u64 = 0;
        let mut value_fits = true;
        let mut saw_component = false;
        let ghost mut st = scan_start();
        for ch in it: input.chars()
            invariant
                it.seq() == input@,
                scan_from(scan_start(), input@.take(it.index() as int)) == Ok::<ScanState, Seq<char>>(st),
                st.total == total as int,
                st.digits == number@,
                st.saw_component == saw_component,
                forall|i: int| 0 <= i < st.digits.len() ==> is_digit(#[trigger] st.digits[i]),
                value_fits ==> value as int == decimal_value(st.digits),
                !value_fits <==> decimal_value(st.digits) > u64::MAX,
        {
            assert(input@.take(it.index() + 1).drop_last() =~= input@.take(it.index() as int));
            assert(input@.take(it.index() + 1).last() == ch);
            let ghost k = it.index() + 1;
            if '0' <= ch && ch <= '9' {
                proof {
                    lemma_decimal_step(st.digits, ch);
                }
                let dv = (ch as u32 - '0' as u32) as u64;
                if value_fits {
                    match value.checked_mul(10) {
                        Some(v10) => match v10.checked_add(dv) {
                            Some(v) => { value = v; },
                            None => { value_fits = false; },
                        },
                        None => {
                            value_fits = false;
                        },
                    }
                }
                number = number.concat(char_string(ch).as_str());
                proof {
                    st = ScanState { digits: st.digits.push(ch), ..st };
                    assert(number@ =~= st.digits);
                }
            } else {
                if number.as_str().is_empty() {
                    let msg = String::from_str("duration has unit `").concat(char_string(ch).as_str()).concat("` without a number");
                    proof {
                        lemma_scan_error_persists(scan_start(), input@, k);
                    }
                    return Err(msg);
                }
                if !value_fits {
                    let msg = String::from_str("invalid duration number `").concat(number.as_str()).concat("`");
                    proof {
                        lemma_scan_error_persists(scan_start(), input@, k);
                    }
                    return Err(msg);
                }
                number = String::new();
                saw_component = true;
                let multiplier: u64 = if ch == 's' {
                    1
                } else if ch == 'm' {
                    60
                } else if ch == 'h' {
                    3_600
                } else if ch == 'd' {
                    86_400
                } else {
                    let msg = String::from_str("unknown duration unit `").concat(char_string(ch).as_str()).concat("`");
                    proof {
                        lemma_scan_error_persists(scan_start(), input@, k);
                    }
                    return Err(msg);
                };
                let part = match value.checked_mul(multiplier) {
                    Some(p) => p,
                    None => {
                        proof {
                            lemma_scan_error_persists(scan_start(), input@, k);
                        }
                        return Err(String::from_str("duration overflow"));
                    },
                };
                total = match total.checked_add(part) {
                    Some(t) => t,
                    None => {
                        proof {
                            lemma_scan_error_persists(scan_start(), input@, k);
                        }
                        return Err(String::from_str("duration overflow"));
                    },
                };
                value = 0;
                proof {
                    st = ScanState { total: total as int, digits: Seq::empty(), saw_component: true };
                    assert(decimal_value(Seq::<char>::empty()) == 0);
                }
            }
        }
        assert(input@.take(input@.len() as int) =~= input@);
        if !number.as_str().is_empty() {
            return Err(String::from_str("duration must end in s, m, h, or d"));
        }
        if !saw_component {
            return Err(String::from_str("duration is empty"));
        }
        Ok(Duration(total))
    }
}

} // verus!
