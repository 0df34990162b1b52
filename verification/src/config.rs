//! The input description: one command per line, words separated by white
//! space.
//!
//! ```text
//! processcount 2
//! runfor 20
//! use rr
//! quantum 2
//! process name A arrival 0 burst 5
//! process name B arrival 1 burst 4
//! end
//! ```
//!
//! Lines that start with another word, and empty lines, are ignored; `end`
//! stops the reading.  The first faulty line decides the error.

use vstd::prelude::*;
use crate::model::Process;
use crate::text::{digits, digit_char, decimal, white, token_scan, split_white, line_scan, split_lines, text_chars, string_of, chars_eq, words_view};

verus! {

/// Why a description was refused.
#[derive(Clone, Copy, Debug, PartialEq, Eq, Structural)]
pub enum ConfigError {
    /// `processcount` without a value, or no `processcount` line at all.
    MissingProcesscount,
    BadProcesscount,
    /// `runfor` without a value, or no `runfor` line at all.
    MissingRunfor,
    BadRunfor,
    /// `use` without a value, or no `use` line at all.
    MissingUse,
    /// `use` with a name other than `fcfs`, `sjf` or `rr`.
    InvalidAlgorithm,
    /// `quantum` without a value.
    MissingQuantum,
    BadQuantum,
    /// A `process` line with fewer than seven words.
    MissingProcessField,
    BadArrival,
    BadBurst,
    /// `use rr` without any `quantum` line.
    QuantumRequired,
}

/// A description that was read successfully.  `use_alg` is 0 for `fcfs`,
/// 1 for `sjf` and 2 for `rr`; `quantum` is 0 when not given.
#[derive(Debug)]
pub struct Config {
    pub processcount: i32,
    pub runfor: i32,
    pub use_alg: i32,
    pub quantum: i32,
    pub processes: Vec<Process>,
}

/// What has been read so far.
pub struct Draft {
    pub processcount: Option<i32>,
    pub runfor: Option<i32>,
    pub use_alg: Option<i32>,
    pub quantum: Option<i32>,
    /// (name, arrival, burst) of each `process` line, in order.
    pub processes: Seq<(Seq<char>, i32, i32)>,
}

/// Where the reading stands after some lines.
pub enum Scan {
    Going(Draft),
    /// An `end` line was read.
    Stopped(Draft),
    Failed(ConfigError),
}

pub open spec fn is_digit(c: char) -> bool {
    '0' <= c && c <= '9'
}

/// The number written by a sequence of decimal digits.
pub open spec fn digits_value(s: Seq<char>) -> int
    decreases s.len(),
{
    if s.len() == 0 {
        0
    } else {
        digits_value(s.drop_last()) * 10 + (s.last() as int - 48)
    }
}

/// The text after an optional leading sign.
pub open spec fn unsigned_part(s: Seq<char>) -> Seq<char> {
    if s.len() > 0 && (s[0] == '-' || s[0] == '+') {
        s.drop_first()
    } else {
        s
    }
}

pub open spec fn all_digits(s: Seq<char>) -> bool {
    forall|i: int| 0 <= i < s.len() ==> is_digit(#[trigger] s[i])
}

/// What `str::parse::<i32>` accepts: an optional `+` or `-`, then one or
/// more ASCII digits, with a value within the range of `i32`.
pub open spec fn parse_int(s: Seq<char>) -> Option<i32> {
    let body = unsigned_part(s);
    if body.len() == 0 || !all_digits(body) {
        None
    } else {
        let v = if s[0] == '-' { -digits_value(body) } else { digits_value(body) };
        if i32::MIN <= v <= i32::MAX {
            Some(v as i32)
        } else {
            None
        }
    }
}

/// The effect of one line, given by its words.
pub open spec fn line_step(d: Draft, w: Seq<Seq<char>>) -> Scan {
    if w.len() == 0 {
        Scan::Going(d)
    } else if w[0] == "processcount"@ {
        if w.len() < 2 {
            Scan::Failed(ConfigError::MissingProcesscount)
        } else {
            match parse_int(w[1]) {
                Some(v) => Scan::Going(Draft { processcount: Some(v), ..d }),
                None => Scan::Failed(ConfigError::BadProcesscount),
            }
        }
    } else if w[0] == "runfor"@ {
        if w.len() < 2 {
            Scan::Failed(ConfigError::MissingRunfor)
        } else {
            match parse_int(w[1]) {
                Some(v) => Scan::Going(Draft { runfor: Some(v), ..d }),
                None => Scan::Failed(ConfigError::BadRunfor),
            }
        }
    } else if w[0] == "use"@ {
        if w.len() < 2 {
            Scan::Failed(ConfigError::MissingUse)
        } else if w[1] == "fcfs"@ {
            Scan::Going(Draft { use_alg: Some(0), ..d })
        } else if w[1] == "sjf"@ {
            Scan::Going(Draft { use_alg: Some(1), ..d })
        } else if w[1] == "rr"@ {
            Scan::Going(Draft { use_alg: Some(2), ..d })
        } else {
            Scan::Failed(ConfigError::InvalidAlgorithm)
        }
    } else if w[0] == "quantum"@ {
        if w.len() < 2 {
            Scan::Failed(ConfigError::MissingQuantum)
        } else {
            match parse_int(w[1]) {
                Some(v) => Scan::Going(Draft { quantum: Some(v), ..d }),
                None => Scan::Failed(ConfigError::BadQuantum),
            }
        }
    } else if w[0] == "process"@ {
        if w.len() < 7 {
            Scan::Failed(ConfigError::MissingProcessField)
        } else {
            match parse_int(w[4]) {
                None => Scan::Failed(ConfigError::BadArrival),
                Some(a) => match parse_int(w[6]) {
                    None => Scan::Failed(ConfigError::BadBurst),
                    Some(b) => Scan::Going(Draft { processes: d.processes.push((w[2], a, b)), ..d }),
                },
            }
        }
    } else if w[0] == "end"@ {
        Scan::Stopped(d)
    } else {
        Scan::Going(d)
    }
}

pub open spec fn empty_draft() -> Draft {
    Draft { processcount: None, runfor: None, use_alg: None, quantum: None, processes: Seq::empty() }
}

/// Reading a sequence of lines; after `end` or an error the rest is ignored.
pub open spec fn scan_lines(lines: Seq<Seq<char>>) -> Scan
    decreases lines.len(),
{
    if lines.len() == 0 {
        Scan::Going(empty_draft())
    } else {
        match scan_lines(lines.drop_last()) {
            Scan::Going(d) => line_step(d, split_white(lines.last())),
            other => other,
        }
    }
}

/// The checks made once all lines are read.
pub open spec fn finish_scan(s: Scan) -> Result<Draft, ConfigError> {
    match s {
        Scan::Failed(e) => Err(e),
        Scan::Going(d) | Scan::Stopped(d) => if d.processcount is None {
            Err(ConfigError::MissingProcesscount)
        } else if d.runfor is None {
            Err(ConfigError::MissingRunfor)
        } else if d.use_alg is None {
            Err(ConfigError::MissingUse)
        } else if d.use_alg == Some(2i32) && d.quantum is None {
            Err(ConfigError::QuantumRequired)
        } else {
            Ok(d)
        },
    }
}

/// The reading of a whole description.
pub open spec fn read_config(text: Seq<char>) -> Result<Draft, ConfigError> {
    finish_scan(scan_lines(split_lines(text)))
}

/// The processes of an exec list as (name, arrival, burst).
pub open spec fn process_triples(ps: Seq<Process>) -> Seq<(Seq<char>, i32, i32)> {
    ps.map_values(|p: Process| (p.name@, p.arrival, p.burst))
}

/// An exec configuration holds a successful reading.
pub open spec fn config_holds(c: Config, d: Draft) -> bool {
    &&& d.processcount == Some(c.processcount)
    &&& d.runfor == Some(c.runfor)
    &&& d.use_alg == Some(c.use_alg)
    &&& c.quantum == (match d.quantum {
        Some(q) => q,
        None => 0i32,
    })
    &&& process_triples(c.processes@) == d.processes
}

/// The line printed for an error.
pub open spec fn error_text(e: ConfigError) -> Seq<char> {
    match e {
        ConfigError::MissingProcesscount => "Error: Missing parameter processcount"@,
        ConfigError::BadProcesscount => "Error: Bad data type for processcount"@,
        ConfigError::MissingRunfor => "Error: Missing parameter runfor"@,
        ConfigError::BadRunfor => "Error: Bad data type for runfor"@,
        ConfigError::MissingUse => "Error: Missing parameter use"@,
        ConfigError::InvalidAlgorithm => "Error: invalid scheduling algorithm"@,
        ConfigError::MissingQuantum => "Error: Missing parameter quantum"@,
        ConfigError::BadQuantum => "Error: Bad data type for quantum"@,
        ConfigError::MissingProcessField => "Error: Missing parameter in process definition"@,
        ConfigError::BadArrival => "Error: Bad data type for arrival"@,
        ConfigError::BadBurst => "Error: Bad data type for burst"@,
        ConfigError::QuantumRequired => "Error: Missing quantum parameter when use is rr"@,
    }
}

impl ConfigError {
    /// The line printed for this error.
    pub fn message(&self) -> (s: String)
        ensures
            s@ == error_text(*self),
    {
        match self {
            ConfigError::MissingProcesscount => String::from_str("Error: Missing parameter processcount"),
            ConfigError::BadProcesscount => String::from_str("Error: Bad data type for processcount"),
            ConfigError::MissingRunfor => String::from_str("Error: Missing parameter runfor"),
            ConfigError::BadRunfor => String::from_str("Error: Bad data type for runfor"),
            ConfigError::MissingUse => String::from_str("Error: Missing parameter use"),
            ConfigError::InvalidAlgorithm => String::from_str("Error: invalid scheduling algorithm"),
            ConfigError::MissingQuantum => String::from_str("Error: Missing parameter quantum"),
            ConfigError::BadQuantum => String::from_str("Error: Bad data type for quantum"),
            ConfigError::MissingProcessField => String::from_str("Error: Missing parameter in process definition"),
            ConfigError::BadArrival => String::from_str("Error: Bad data type for arrival"),
            ConfigError::BadBurst => String::from_str("Error: Bad data type for burst"),
            ConfigError::QuantumRequired => String::from_str("Error: Missing quantum parameter when use is rr"),
        }
    }
}

proof fn lemma_digit_char(d: int)
    requires
        0 <= d < 10,
    ensures
        is_digit(digit_char(d)),
        digit_char(d) as int - 48 == d,
{
    let b = (48 + d) as u8;
    assert(b as int == 48 + d);
    assert((b as char) as int == b as int);
}

proof fn lemma_digits_read(n: nat)
    ensures
        all_digits(digits(n)),
        digits_value(digits(n)) == n,
        digits(n).len() > 0,
    decreases n,
{
    if n < 10 {
        lemma_digit_char(n as int);
        assert(digits(n).drop_last() =~= Seq::<char>::empty());
        assert(digits_value(digits(n)) == digits_value(Seq::<char>::empty()) * 10 + (digit_char(n as int) as int - 48));
    } else {
        lemma_digits_read(n / 10);
        lemma_digit_char((n % 10) as int);
        let d = digits(n);
        assert(d.drop_last() =~= digits(n / 10));
        assert(d.last() == digit_char((n % 10) as int));
        assert(digits_value(d) == digits_value(digits(n / 10)) * 10 + (n % 10));
        assert((n / 10) * 10 + n % 10 == n) by (nonlinear_arith);
        assert forall|i: int| 0 <= i < d.len() implies is_digit(#[trigger] d[i]) by {
            if i < d.len() - 1 {
                assert(d[i] == digits(n / 10)[i]);
            }
        }
    }
}

/// Reading back a rendered number: the decimal text of any `i32` reads as
/// that same number.
pub proof fn law_read_decimal(v: i32)
    ensures
        parse_int(decimal(v as int)) == Some(v),
{
    if v < 0 {
        let m = (-(v as int)) as nat;
        lemma_digits_read(m);
        let s = decimal(v as int);
        assert(s[0] == '-');
        assert(unsigned_part(s) =~= digits(m));
    } else {
        lemma_digits_read(v as nat);
        let s = digits(v as nat);
        assert(is_digit(s[0]));
        assert(unsigned_part(s) == s);
    }
}

/// A well-formed `quantum` line.
pub open spec fn sets_quantum(l: Seq<char>) -> bool {
    let w = split_white(l);
    w.len() >= 2 && w[0] == "quantum"@ && parse_int(w[1]) is Some
}

/// A well-formed `use` line.
pub open spec fn sets_use(l: Seq<char>) -> bool {
    let w = split_white(l);
    w.len() >= 2 && w[0] == "use"@ && (w[1] == "fcfs"@ || w[1] == "sjf"@ || w[1] == "rr"@)
}

/// A line whose first word is `quantum`.
pub open spec fn is_quantum_line(l: Seq<char>) -> bool {
    let w = split_white(l);
    w.len() > 0 && w[0] == "quantum"@
}

/// What is read after some lines depends on those lines only through what
/// was read from them.
proof fn lemma_scan_suffix(p1: Seq<Seq<char>>, p2: Seq<Seq<char>>, b: Seq<Seq<char>>)
    requires
        scan_lines(p1) == scan_lines(p2),
    ensures
        scan_lines(p1 + b) == scan_lines(p2 + b),
    decreases b.len(),
{
    if b.len() == 0 {
        assert(p1 + b =~= p1);
        assert(p2 + b =~= p2);
    } else {
        lemma_scan_suffix(p1, p2, b.drop_last());
        assert((p1 + b).drop_last() =~= p1 + b.drop_last());
        assert((p2 + b).drop_last() =~= p2 + b.drop_last());
    }
}

/// The settings read do not depend on the order of a `quantum` line and a
/// `use` line: swapping two such neighbouring lines, anywhere in the
/// description, gives the same reading, and so the same result.
pub proof fn law_config_quantum_use_commute(
    before: Seq<Seq<char>>,
    q: Seq<char>,
    u: Seq<char>,
    after: Seq<Seq<char>>,
)
    requires
        sets_quantum(q),
        sets_use(u),
    ensures
        scan_lines(before + seq![q, u] + after) == scan_lines(before + seq![u, q] + after),
        finish_scan(scan_lines(before + seq![q, u] + after)) == finish_scan(scan_lines(before + seq![u, q] + after)),
{
    reveal_strlit("processcount");
    reveal_strlit("runfor");
    reveal_strlit("use");
    reveal_strlit("quantum");
    reveal_strlit("process");
    reveal_strlit("end");
    reveal_strlit("fcfs");
    reveal_strlit("sjf");
    reveal_strlit("rr");
    let x = before + seq![q, u];
    let y = before + seq![u, q];
    assert(x.drop_last().drop_last() =~= before);
    assert(y.drop_last().drop_last() =~= before);
    assert(x.drop_last() =~= before.push(q));
    assert(y.drop_last() =~= before.push(u));
    assert(before.push(q).drop_last() =~= before);
    assert(before.push(u).drop_last() =~= before);
    match scan_lines(before) {
        Scan::Going(d) => {
            let wq = split_white(q);
            let wu = split_white(u);
            assert(scan_lines(before.push(q)) == line_step(d, wq));
            assert(scan_lines(before.push(u)) == line_step(d, wu));
            assert(scan_lines(x) =~= scan_lines(y));
        },
        _ => {
            assert(scan_lines(before.push(q)) == scan_lines(before));
            assert(scan_lines(before.push(u)) == scan_lines(before));
        },
    }
    lemma_scan_suffix(x, y, after);
}

/// A well-formed line setting `processcount`, `runfor`, `use` or `quantum`.
pub open spec fn sets_setting(l: Seq<char>) -> bool {
    let w = split_white(l);
    ||| sets_use(l)
    ||| w.len() >= 2 && (w[0] == "processcount"@ || w[0] == "runfor"@ || w[0] == "quantum"@) && parse_int(w[1]) is Some
}

/// Each setting line sets only its own setting: swapping two neighbouring
/// well-formed lines that set different settings, anywhere in the
/// description, gives the same reading.
pub proof fn law_config_settings_commute(
    before: Seq<Seq<char>>,
    x: Seq<char>,
    y: Seq<char>,
    after: Seq<Seq<char>>,
)
    requires
        sets_setting(x),
        sets_setting(y),
        split_white(x)[0] != split_white(y)[0],
    ensures
        scan_lines(before + seq![x, y] + after) == scan_lines(before + seq![y, x] + after),
{
    reveal_strlit("processcount");
    reveal_strlit("runfor");
    reveal_strlit("use");
    reveal_strlit("quantum");
    reveal_strlit("process");
    reveal_strlit("end");
    reveal_strlit("fcfs");
    reveal_strlit("sjf");
    reveal_strlit("rr");
    let a = before + seq![x, y];
    let b = before + seq![y, x];
    assert(a.drop_last() =~= before.push(x));
    assert(b.drop_last() =~= before.push(y));
    assert(before.push(x).drop_last() =~= before);
    assert(before.push(y).drop_last() =~= before);
    match scan_lines(before) {
        Scan::Going(d) => {
            assert(scan_lines(before.push(x)) == line_step(d, split_white(x)));
            assert(scan_lines(before.push(y)) == line_step(d, split_white(y)));
            assert(scan_lines(a) =~= scan_lines(b));
        },
        _ => {
            assert(scan_lines(before.push(x)) == scan_lines(before));
            assert(scan_lines(before.push(y)) == scan_lines(before));
        },
    }
    lemma_scan_suffix(a, b, after);
}

/// An `end` line stops the reading: what is read from a description that
/// stopped is what was read from the lines before its first `end` line.
pub proof fn law_config_end_stops_reading(lines: Seq<Seq<char>>)
    ensures
        match scan_lines(lines) {
            Scan::Stopped(d) => exists|k: int|
                0 <= k < lines.len() && split_white(#[trigger] lines[k]).len() > 0 && split_white(lines[k])[0] == "end"@
                    && scan_lines(lines.take(k)) == Scan::Going(d),
            _ => true,
        },
    decreases lines.len(),
{
    reveal_strlit("processcount");
    reveal_strlit("runfor");
    reveal_strlit("use");
    reveal_strlit("quantum");
    reveal_strlit("process");
    reveal_strlit("end");
    if lines.len() > 0 {
        let init = lines.drop_last();
        law_config_end_stops_reading(init);
        if let Scan::Stopped(d) = scan_lines(lines) {
            match scan_lines(init) {
                Scan::Stopped(d0) => {
                    let k = choose|k: int|
                        0 <= k < init.len() && split_white(#[trigger] init[k]).len() > 0 && split_white(init[k])[0] == "end"@
                            && scan_lines(init.take(k)) == Scan::Going(d0);
                    assert(lines[k] == init[k]);
                    assert(lines.take(k) =~= init.take(k));
                },
                Scan::Going(d0) => {
                    let k = lines.len() - 1;
                    assert(lines.take(k) =~= init);
                    assert(lines[k] == lines.last());
                },
                Scan::Failed(e) => {},
            }
        }
    }
}

/// Reading every line (no `end`, no error), the quantum read is the value on
/// the last `quantum` line, whatever other lines come before or after it;
/// there is none exactly when no line is a `quantum` line, and only then can
/// `use rr` be refused for a missing quantum.
pub proof fn law_config_quantum_is_last_quantum_line(lines: Seq<Seq<char>>)
    ensures
        match scan_lines(lines) {
            Scan::Going(d) => {
                &&& d.quantum is None <==> forall|i: int| 0 <= i < lines.len() ==> !is_quantum_line(#[trigger] lines[i])
                &&& forall|i: int|
                    0 <= i < lines.len() && is_quantum_line(#[trigger] lines[i])
                        && (forall|j: int| i < j < lines.len() ==> !is_quantum_line(#[trigger] lines[j]))
                        ==> d.quantum == parse_int(split_white(lines[i])[1])
                &&& finish_scan(Scan::Going(d)) == Err::<Draft, ConfigError>(ConfigError::QuantumRequired)
                    ==> forall|i: int| 0 <= i < lines.len() ==> !is_quantum_line(#[trigger] lines[i])
            },
            _ => true,
        },
    decreases lines.len(),
{
    reveal_strlit("processcount");
    reveal_strlit("runfor");
    reveal_strlit("use");
    reveal_strlit("quantum");
    reveal_strlit("process");
    reveal_strlit("end");
    reveal_strlit("fcfs");
    reveal_strlit("sjf");
    reveal_strlit("rr");
    if lines.len() > 0 {
        let init = lines.drop_last();
        law_config_quantum_is_last_quantum_line(init);
        if let Scan::Going(d) = scan_lines(lines) {
            let last = lines.last();
            let w = split_white(last);
            assert forall|i: int| 0 <= i < init.len() implies lines[i] == #[trigger] init[i] by {}
            match scan_lines(init) {
                Scan::Going(d0) => {
                    assert(line_step(d0, w) == Scan::Going(d));
                    if is_quantum_line(last) {
                        assert(w[0] == "quantum"@);
                        assert(w[0] != "processcount"@);
                        assert(w[0] != "runfor"@);
                        assert(w[0] != "use"@);
                        assert(w.len() >= 2);
                        assert(parse_int(w[1]) is Some);
                        assert(d.quantum == parse_int(w[1]));
                        assert(d.quantum is Some);
                        assert(is_quantum_line(lines[lines.len() - 1]));
                        assert forall|i: int|
                            0 <= i < lines.len() && is_quantum_line(#[trigger] lines[i])
                                && (forall|j: int| i < j < lines.len() ==> !is_quantum_line(#[trigger] lines[j]))
                                implies d.quantum == parse_int(split_white(lines[i])[1]) by {
                            if i < lines.len() - 1 {
                                assert(!is_quantum_line(lines[lines.len() - 1]));
                            }
                        }
                    } else {
                        assert(d.quantum == d0.quantum);
                        assert forall|i: int|
                            0 <= i < lines.len() && is_quantum_line(#[trigger] lines[i])
                                && (forall|j: int| i < j < lines.len() ==> !is_quantum_line(#[trigger] lines[j]))
                                implies d.quantum == parse_int(split_white(lines[i])[1]) by {
                            assert(i < lines.len() - 1);
                            assert(is_quantum_line(init[i]));
                            assert forall|j: int| i < j < init.len() implies !is_quantum_line(#[trigger] init[j]) by {
                                assert(!is_quantum_line(lines[j]));
                            }
                        }
                        if d.quantum is Some {
                            let k = choose|k: int| 0 <= k < init.len() && is_quantum_line(#[trigger] init[k]);
                            assert(is_quantum_line(lines[k]));
                        } else {
                            assert forall|i: int| 0 <= i < lines.len() implies !is_quantum_line(#[trigger] lines[i]) by {
                                if i < init.len() {
                                    assert(lines[i] == init[i]);
                                }
                            }
                        }
                        if finish_scan(Scan::Going(d)) == Err::<Draft, ConfigError>(ConfigError::QuantumRequired) {
                            assert(d.quantum is None);
                        }
                    }
                },
                _ => {},
            }
        }
    }
}


/// Reads a decimal integer as `str::parse::<i32>` does.
#[verifier::loop_isolation(false)]
pub fn parse_int_chars(tok: &Vec<char>) -> (r: Option<i32>)
    ensures
        r == parse_int(tok@),
{
    let n = tok.len();
    let ghost s = tok@;
    let signed = n > 0 && (tok[0] == '-' || tok[0] == '+');
    let neg = n > 0 && tok[0] == '-';
    let start: usize = if signed { 1 } else { 0 };
    let ghost body = unsigned_part(s);
    if start == n {
        return None;
    }
    let mut acc: i64 = 0;
    let mut big = false;
    let mut i: usize = start;
    assert(body.take(0) =~= Seq::<char>::empty());
    while i < n
        invariant
            start <= i <= n,
            n == s.len(),
            s == tok@,
            body.len() == n - start,
            forall|j: int| 0 <= j < body.len() ==> body[j] == s[j + start],
            forall|j: int| 0 <= j < i - start ==> is_digit(#[trigger] body[j]),
            big ==> digits_value(body.take(i - start)) > 2147483648,
            !big ==> acc == digits_value(body.take(i - start)) && 0 <= acc <= 2147483649,
        decreases n - i,
    {
        let c = tok[i];
        assert(body[i - start] == c);
        if !('0' <= c && c <= '9') {
            assert(!is_digit(body[i - start]));
            assert(!all_digits(body));
            return None;
        }
        let d: i64 = (c as u32 - 48) as i64;
        let ghost k = i - start;
        assert(body.take(k + 1).drop_last() =~= body.take(k));
        assert(body.take(k + 1).last() == c);
        if !big {
            if acc > 214748364 {
                big = true;
            } else {
                acc = acc * 10 + d;
            }
        }
        i = i + 1;
    }
    assert(body.take(n - start) =~= body);
    if big {
        return None;
    }
    let v: i64 = if neg { -acc } else { acc };
    if v < -2147483648 || v > 2147483647 {
        None
    } else {
        Some(v as i32)
    }
}

struct DraftBuf {
    processcount: Option<i32>,
    runfor: Option<i32>,
    use_alg: Option<i32>,
    quantum: Option<i32>,
    processes: Vec<Process>,
}

spec fn draft_of(b: DraftBuf) -> Draft {
    Draft {
        processcount: b.processcount,
        runfor: b.runfor,
        use_alg: b.use_alg,
        quantum: b.quantum,
        processes: process_triples(b.processes@),
    }
}

enum Flow {
    Continue,
    Stop,
    Fail(ConfigError),
}

spec fn flow_holds(f: Flow, b: DraftBuf, s: Scan) -> bool {
    match s {
        Scan::Going(d) => f is Continue && draft_of(b) == d,
        Scan::Stopped(d) => f is Stop && draft_of(b) == d,
        Scan::Failed(e) => f == Flow::Fail(e),
    }
}

fn word_is(w: &Vec<char>, kw: &str) -> (r: bool)
    ensures
        r == (w@ == kw@),
{
    let k = text_chars(kw);
    chars_eq(w, &k)
}

fn apply_line(b: &mut DraftBuf, w: &Vec<Vec<char>>) -> (f: Flow)
    ensures
        flow_holds(f, *final(b), line_step(draft_of(*old(b)), words_view(w@))),
{
    let ghost ws = words_view(w@);
    let ghost d = draft_of(*b);
    if w.len() == 0 {
        return Flow::Continue;
    }
    assert(ws[0] == w@[0]@);
    let n = w.len();
    if word_is(&w[0], "processcount") {
        if n < 2 {
            return Flow::Fail(ConfigError::MissingProcesscount);
        }
        assert(ws[1] == w@[1]@);
        match parse_int_chars(&w[1]) {
            Some(v) => {
                b.processcount = Some(v);
                Flow::Continue
            },
            None => Flow::Fail(ConfigError::BadProcesscount),
        }
    } else if word_is(&w[0], "runfor") {
        if n < 2 {
            return Flow::Fail(ConfigError::MissingRunfor);
        }
        assert(ws[1] == w@[1]@);
        match parse_int_chars(&w[1]) {
            Some(v) => {
                b.runfor = Some(v);
                Flow::Continue
            },
            None => Flow::Fail(ConfigError::BadRunfor),
        }
    } else if word_is(&w[0], "use") {
        if n < 2 {
            return Flow::Fail(ConfigError::MissingUse);
        }
        assert(ws[1] == w@[1]@);
        if word_is(&w[1], "fcfs") {
            b.use_alg = Some(0);
            Flow::Continue
        } else if word_is(&w[1], "sjf") {
            b.use_alg = Some(1);
            Flow::Continue
        } else if word_is(&w[1], "rr") {
            b.use_alg = Some(2);
            Flow::Continue
        } else {
            Flow::Fail(ConfigError::InvalidAlgorithm)
        }
    } else if word_is(&w[0], "quantum") {
        if n < 2 {
            return Flow::Fail(ConfigError::MissingQuantum);
        }
        assert(ws[1] == w@[1]@);
        match parse_int_chars(&w[1]) {
            Some(v) => {
                b.quantum = Some(v);
                Flow::Continue
            },
            None => Flow::Fail(ConfigError::BadQuantum),
        }
    } else if word_is(&w[0], "process") {
        if n < 7 {
            return Flow::Fail(ConfigError::MissingProcessField);
        }
        assert(ws[2] == w@[2]@);
        assert(ws[4] == w@[4]@);
        assert(ws[6] == w@[6]@);
        match parse_int_chars(&w[4]) {
            None => Flow::Fail(ConfigError::BadArrival),
            Some(a) => match parse_int_chars(&w[6]) {
                None => Flow::Fail(ConfigError::BadBurst),
                Some(bu) => {
                    let name = string_of(&w[2]);
                    let p = Process { name, arrival: a, burst: bu };
                    let ghost before = b.processes@;
                    b.processes.push(p);
                    assert(process_triples(b.processes@) =~= process_triples(before).push((ws[2], a, bu)));
                    Flow::Continue
                },
            },
        }
    } else if word_is(&w[0], "end") {
        Flow::Stop
    } else {
        Flow::Continue
    }
}

/// Reads a description.  The result is the reading that `read_config`
/// defines: the first faulty line, or else the first missing setting, gives
/// the error; otherwise the settings and the processes in order.
pub fn parse_config(text: &str) -> (r: Result<Config, ConfigError>)
    ensures
        match read_config(text@) {
            Ok(d) => r matches Ok(c) && config_holds(c, d),
            Err(e) => r == Err::<Config, ConfigError>(e),
        },
{
    let chars = text_chars(text);
    let ghost s = chars@;
    let mut buf = DraftBuf {
        processcount: None,
        runfor: None,
        use_alg: None,
        quantum: None,
        processes: Vec::new(),
    };
    let mut flow = Flow::Continue;
    let mut words: Vec<Vec<char>> = Vec::new();
    let mut cur: Vec<char> = Vec::new();
    let mut i: usize = 0;
    assert(s.take(0) =~= Seq::<char>::empty());
    assert(process_triples(buf.processes@) =~= Seq::<(Seq<char>, i32, i32)>::empty());
    assert(words_view(words@) =~= Seq::<Seq<char>>::empty());
    while i < chars.len()
        invariant
            0 <= i <= s.len(),
            s == chars@,
            flow_holds(flow, buf, scan_lines(line_scan(s.take(i as int)).0)),
            words_view(words@) == token_scan(line_scan(s.take(i as int)).1).0,
            cur@ == token_scan(line_scan(s.take(i as int)).1).1,
        decreases s.len() - i,
    {
        let c = chars[i];
        let ghost pre = s.take(i as int);
        let ghost lines = line_scan(pre);
        assert(s.take(i + 1).drop_last() =~= pre);
        assert(s.take(i + 1).last() == c);
        if c == '\n' {
            let ghost before = words@;
            if cur.len() > 0 {
                words.push(cur);
                cur = Vec::new();
                assert(words_view(words@) =~= words_view(before).push(token_scan(lines.1).1));
            }
            assert(words_view(words@) == split_white(lines.1));
            assert(lines.0.push(lines.1).drop_last() =~= lines.0);
            match flow {
                Flow::Continue => {
                    flow = apply_line(&mut buf, &words);
                },
                _ => {},
            }
            words = Vec::new();
            assert(words_view(words@) =~= Seq::<Seq<char>>::empty());
        } else if white(c) {
            assert(lines.1.push(c).drop_last() =~= lines.1);
            let ghost before = words@;
            if cur.len() > 0 {
                words.push(cur);
                cur = Vec::new();
                assert(words_view(words@) =~= words_view(before).push(token_scan(lines.1).1));
            }
        } else {
            assert(lines.1.push(c).drop_last() =~= lines.1);
            cur.push(c);
        }
        i = i + 1;
    }
    assert(s.take(s.len() as int) =~= s);
    let ghost lines = line_scan(s);
    let ghost before = words@;
    if cur.len() > 0 {
        words.push(cur);
        assert(words_view(words@) =~= words_view(before).push(token_scan(lines.1).1));
    }
    assert(words_view(words@) == split_white(lines.1));
    assert(lines.0.push(lines.1).drop_last() =~= lines.0);
    match flow {
        Flow::Continue => {
            flow = apply_line(&mut buf, &words);
        },
        _ => {},
    }
    match flow {
        Flow::Fail(e) => {
            return Err(e);
        },
        _ => {},
    }
    let processcount = match buf.processcount {
        Some(v) => v,
        None => {
            return Err(ConfigError::MissingProcesscount);
        },
    };
    let runfor = match buf.runfor {
        Some(v) => v,
        None => {
            return Err(ConfigError::MissingRunfor);
        },
    };
    let use_alg = match buf.use_alg {
        Some(v) => v,
        None => {
            return Err(ConfigError::MissingUse);
        },
    };
    let quantum = match buf.quantum {
        Some(q) => q,
        None => {
            if use_alg == 2 {
                return Err(ConfigError::QuantumRequired);
            }
            0
        },
    };
    Ok(Config { processcount, runfor, use_alg, quantum, processes: buf.processes })
}

} // verus!
