//! The command line: its command and its flags.

use crate::runner::SimConfig;
use vstd::prelude::*;

verus! {

/// Where a flag stands for the first time.
pub open spec fn first_at(args: Seq<String>, key: Seq<char>, i: int) -> bool {
    &&& 0 <= i < args.len()
    &&& args[i]@ == key
    &&& forall|j: int| 0 <= j < i ==> (#[trigger] args[j])@ != key
}

/// The value of a flag: the argument behind its first occurrence.
pub open spec fn flag_value(args: Seq<String>, key: Seq<char>) -> Option<Seq<char>> {
    if exists|i: int| first_at(args, key, i) {
        let i = choose|i: int| first_at(args, key, i);
        if i + 1 < args.len() {
            Some(args[i + 1]@)
        } else {
            None
        }
    } else {
        None
    }
}

/// Whether two strings hold the same characters.
fn same_text(a: &str, b: &str) -> (r: bool)
    ensures
        r == (a@ == b@),
{
    let n = a.unicode_len();
    if n != b.unicode_len() {
        return false;
    }
    let mut i: usize = 0;
    while i < n
        invariant
            n == a@.len() == b@.len(),
            i <= n,
            forall|j: int| 0 <= j < i ==> a@[j] == b@[j],
        decreases n - i,
    {
        if a.get_char(i) != b.get_char(i) {
            return false;
        }
        i += 1;
    }
    proof {
        assert(a@ =~= b@);
    }
    true
}

/// Tiny flag parser: the value of `--key value`.
pub fn opt(args: &[String], key: &str) -> (r: Option<String>)
    ensures
        match r {
            Some(v) => flag_value(args@, key@) == Some(v@),
            None => flag_value(args@, key@) is None,
        },
{
    let mut i: usize = 0;
    while i < args.len()
        invariant
            i <= args@.len(),
            forall|j: int| 0 <= j < i ==> (#[trigger] args@[j])@ != key@,
        decreases args@.len() - i,
    {
        if same_text(args[i].as_str(), key) {
            proof {
                assert(first_at(args@, key@, i as int));
                let k = choose|k: int| first_at(args@, key@, k);
                assert(k == i) by {
                    if k < i {
                        assert(args@[k]@ != key@);
                    }
                    if i < k {
                        assert(args@[i as int]@ != key@);
                    }
                }
            }
            if i + 1 < args.len() {
                return Some(args[i + 1].clone());
            }
            return None;
        }
        i += 1;
    }
    None
}

/// A decimal digit.
pub open spec fn is_digit(c: char) -> bool {
    '0' <= c <= '9'
}

/// The number that decimal digits stand for.
pub open spec fn digits_value(s: Seq<char>) -> nat
    decreases s.len(),
{
    if s.len() == 0 {
        0
    } else {
        10 * digits_value(s.drop_last()) + ((s.last() as int - '0' as int) as nat)
    }
}

/// The digits of a number: everything behind an optional plus sign.
pub open spec fn unsigned_part(s: Seq<char>) -> Seq<char> {
    if s.len() > 0 && s[0] == '+' {
        s.skip(1)
    } else {
        s
    }
}

/// The `u64` that a text stands for: an optional plus sign and at least one
/// digit, nothing else, and no more than fits.
pub open spec fn number_of(s: Seq<char>) -> Option<u64> {
    let d = unsigned_part(s);
    if d.len() > 0 && (forall|i: int| 0 <= i < d.len() ==> is_digit(#[trigger] d[i]))
        && digits_value(d) <= u64::MAX {
        Some(digits_value(d) as u64)
    } else {
        None
    }
}

/// More digits, a larger number.
proof fn lemma_digits_grow(s: Seq<char>, n: int)
    requires
        0 <= n <= s.len(),
        forall|i: int| 0 <= i < s.len() ==> is_digit(#[trigger] s[i]),
    ensures
        digits_value(s.take(n)) <= digits_value(s),
    decreases s.len() - n,
{
    if n < s.len() {
        lemma_digits_grow(s, n + 1);
        assert(s.take(n + 1).drop_last() =~= s.take(n));
    } else {
        assert(s.take(n) =~= s);
    }
}

/// Read a `u64` in decimal digits.
pub fn parse_u64(s: &str) -> (r: Option<u64>)
    ensures
        r == number_of(s@),
{
    let n = s.unicode_len();
    let start: usize = if n > 0 && s.get_char(0) == '+' {
        1
    } else {
        0
    };
    let ghost d = unsigned_part(s@);
    proof {
        assert(s@.skip(0) =~= s@);
        assert(d =~= s@.skip(start as int));
    }
    if start == n {
        return None;
    }
    let mut v: u64 = 0;
    let mut i: usize = start;
    proof {
        assert(d.take(0).len() == 0);
    }
    while i < n
        invariant
            start <= i <= n,
            n == s@.len(),
            d == s@.skip(start as int),
            d.len() > 0,
            d == unsigned_part(s@),
            forall|j: int| 0 <= j < i - start ==> is_digit(#[trigger] d[j]),
            v == digits_value(d.take(i - start)),
        decreases n - i,
    {
        let c = s.get_char(i);
        proof {
            assert(d[i - start] == c);
            assert(d.take(i - start + 1).drop_last() =~= d.take(i - start));
        }
        if c < '0' || c > '9' {
            return None;
        }
        let x = c as u32 - '0' as u32;
        if v > 0xffff_ffff_ffff_ffff / 10 || v * 10 > 0xffff_ffff_ffff_ffff - x as u64 {
            proof {
                if forall|j: int| 0 <= j < d.len() ==> is_digit(#[trigger] d[j]) {
                    lemma_digits_grow(d, i - start + 1);
                }
            }
            return None;
        }
        v = v * 10 + x as u64;
        i += 1;
    }
    proof {
        assert(d.take(i - start) =~= d);
    }
    Some(v)
}

/// The number behind a flag, or a default.
pub open spec fn flag_number(args: Seq<String>, key: Seq<char>, default: u64) -> u64 {
    match flag_value(args, key) {
        Some(v) => match number_of(v) {
            Some(n) => n,
            None => default,
        },
        None => default,
    }
}

/// The number behind a flag; where there is none, or it is no number, the
/// default.
pub fn opt_u64(args: &[String], key: &str, default: u64) -> (r: u64)
    ensures
        r == flag_number(args@, key@, default),
{
    match opt(args, key) {
        Some(v) => match parse_u64(v.as_str()) {
            Some(n) => n,
            None => default,
        },
        None => default,
    }
}

/// The value of a flag is the argument behind it, the first time it is given;
/// a flag that is not given, or has nothing behind it, has none.
pub proof fn law_flag_value(args: Seq<String>, key: Seq<char>, i: int)
    requires
        0 <= i <= args.len(),
        forall|j: int| 0 <= j < i ==> (#[trigger] args[j])@ != key,
        i < args.len() ==> args[i]@ == key,
    ensures
        flag_value(args, key) == if i + 1 < args.len() {
            Some(args[i + 1]@)
        } else {
            None
        },
{
    if i < args.len() {
        assert(first_at(args, key, i));
        let k = choose|k: int| first_at(args, key, k);
        if k < i {
            assert(args[k]@ != key);
        }
        if i < k {
            assert(args[i]@ != key);
        }
    } else if exists|k: int| first_at(args, key, k) {
        let k = choose|k: int| first_at(args, key, k);
        assert(args[k]@ != key);
    }
}

/// The number behind a flag is what its value reads as; where that is no number,
/// or there is no value, it is the default.
pub proof fn law_flag_number(args: Seq<String>, key: Seq<char>, default: u64)
    ensures
        match flag_value(args, key) {
            Some(v) => {
                &&& number_of(v) matches Some(n) ==> flag_number(args, key, default) == n
                &&& number_of(v) is None ==> flag_number(args, key, default) == default
            },
            None => flag_number(args, key, default) == default,
        },
{
}

/// A number written in decimal digits, the highest first.
pub open spec fn decimal(n: nat) -> Seq<char>
    decreases n,
{
    let last = ('0' as int + n as int % 10) as char;
    if n < 10 {
        seq![last]
    } else {
        decimal(n / 10).push(last)
    }
}

proof fn lemma_decimal(n: nat)
    ensures
        decimal(n).len() > 0,
        forall|i: int| 0 <= i < decimal(n).len() ==> is_digit(#[trigger] decimal(n)[i]),
        digits_value(decimal(n)) == n,
    decreases n,
{
    let d = decimal(n);
    if n < 10 {
        assert(d.drop_last() =~= Seq::empty());
        assert(digits_value(d.drop_last()) == 0);
    } else {
        lemma_decimal(n / 10);
        assert(d.drop_last() =~= decimal(n / 10));
    }
}

/// A number reads as what it is written: in decimal digits, with or without a
/// plus sign. One that does not fit reads as nothing, and so does a text with
/// anything else in it, and one without digits.
pub proof fn law_numbers_read_as_written(n: nat, s: Seq<char>)
    ensures
        n <= u64::MAX ==> number_of(decimal(n)) == Some(n as u64),
        n <= u64::MAX ==> number_of(seq!['+'] + decimal(n)) == Some(n as u64),
        n > u64::MAX ==> number_of(decimal(n)) is None,
        s.len() == 0 ==> number_of(s) is None,
        s == seq!['+'] ==> number_of(s) is None,
        (exists|i: int|
            0 <= i < s.len() && !('0' <= #[trigger] s[i] <= '9') && (i > 0 || s[i] != '+'))
            ==> number_of(s) is None,
{
    lemma_decimal(n);
    let d = decimal(n);
    assert(is_digit(d[0]));
    assert((seq!['+'] + d).skip(1) =~= d);
    if exists|i: int|
        0 <= i < s.len() && !('0' <= #[trigger] s[i] <= '9') && (i > 0 || s[i] != '+') {
        let i = choose|i: int|
            0 <= i < s.len() && !('0' <= #[trigger] s[i] <= '9') && (i > 0 || s[i] != '+');
        let u = unsigned_part(s);
        let j = if s[0] == '+' {
            i - 1
        } else {
            i
        };
        assert(u[j] == s[i]);
        assert(!is_digit(u[j]));
    }
}

/// A flag starts with two dashes.
pub open spec fn is_flag(s: Seq<char>) -> bool {
    s.len() >= 2 && s[0] == '-' && s[1] == '-'
}

/// The first argument that is no flag.
pub fn positional(args: &[String]) -> (r: Option<usize>)
    ensures
        match r {
            Some(i) => {
                &&& i < args@.len()
                &&& !is_flag(args@[i as int]@)
                &&& forall|j: int| 0 <= j < i ==> is_flag((#[trigger] args@[j])@)
            },
            None => forall|j: int| 0 <= j < args@.len() ==> is_flag((#[trigger] args@[j])@),
        },
{
    let mut i: usize = 0;
    while i < args.len()
        invariant
            i <= args@.len(),
            forall|j: int| 0 <= j < i ==> is_flag((#[trigger] args@[j])@),
        decreases args@.len() - i,
    {
        let s = args[i].as_str();
        if !(s.unicode_len() >= 2 && s.get_char(0) == '-' && s.get_char(1) == '-') {
            return Some(i);
        }
        i += 1;
    }
    None
}

/// What a command line asks for.
#[derive(Copy, Clone, PartialEq, Eq, Debug, Structural)]
pub enum Command {
    Sim,
    Replay,
    Tui,
    Bench,
    /// Nothing, or nothing known: how to ask.
    Usage,
}

/// The command that a word names.
pub open spec fn named(word: Seq<char>) -> Command {
    if word == "sim"@ {
        Command::Sim
    } else if word == "replay"@ {
        Command::Replay
    } else if word == "tui"@ {
        Command::Tui
    } else if word == "bench"@ {
        Command::Bench
    } else {
        Command::Usage
    }
}

/// No two commands have the same name.
proof fn lemma_commands_differ()
    ensures
        "sim"@ != "replay"@,
        "sim"@ != "tui"@,
        "sim"@ != "bench"@,
        "replay"@ != "tui"@,
        "replay"@ != "bench"@,
        "tui"@ != "bench"@,
{
    reveal_strlit("sim");
    reveal_strlit("replay");
    reveal_strlit("tui");
    reveal_strlit("bench");
    assert("sim"@[0] == 's' && "tui"@[0] == 't');
    assert("replay"@.len() == 6 && "bench"@.len() == 5);
}

/// The command that the first argument names.
pub fn command(args: &[String]) -> (c: Command)
    ensures
        c == if args@.len() == 0 {
            Command::Usage
        } else {
            named(args@[0]@)
        },
        c == Command::Sim <==> args@.len() > 0 && args@[0]@ == "sim"@,
        c == Command::Replay <==> args@.len() > 0 && args@[0]@ == "replay"@,
        c == Command::Tui <==> args@.len() > 0 && args@[0]@ == "tui"@,
        c == Command::Bench <==> args@.len() > 0 && args@[0]@ == "bench"@,
{
    proof {
        lemma_commands_differ();
    }
    if args.len() == 0 {
        return Command::Usage;
    }
    let word = args[0].as_str();
    if same_text(word, "sim") {
        Command::Sim
    } else if same_text(word, "replay") {
        Command::Replay
    } else if same_text(word, "tui") {
        Command::Tui
    } else if same_text(word, "bench") {
        Command::Bench
    } else {
        Command::Usage
    }
}

/// The simulation that a command line asks for; what it does not say is as in
/// the default.
pub fn sim_config(args: &[String]) -> (c: SimConfig)
    ensures
        c.seed == flag_number(args@, "--seed"@, 42),
        c.events == #[verifier::truncate] (flag_number(args@, "--events"@, 1_000_000) as usize),
        c.market_makers == #[verifier::truncate] (flag_number(args@, "--mm"@, 20) as u32),
        c.momentum == #[verifier::truncate] (flag_number(args@, "--momentum"@, 5) as u32),
        c.noise == #[verifier::truncate] (flag_number(args@, "--noise"@, 10) as u32),
        c.adversarial == #[verifier::truncate] (flag_number(args@, "--adversarial"@, 2) as u32),
        c.book.min_price == 1_000,
        c.book.tick_size == 1,
        c.book.num_levels == 4_096,
        c.book.max_live_orders == 65_536,
{
    let d = SimConfig::default();
    SimConfig {
        seed: opt_u64(args, "--seed", d.seed),
        events: opt_u64(args, "--events", d.events as u64) as usize,
        book: d.book,
        market_makers: opt_u64(args, "--mm", d.market_makers as u64) as u32,
        momentum: opt_u64(args, "--momentum", d.momentum as u64) as u32,
        noise: opt_u64(args, "--noise", d.noise as u64) as u32,
        adversarial: opt_u64(args, "--adversarial", d.adversarial as u64) as u32,
    }
}

} // verus!
