//! Command-line parsing: flags, their values, defaults and the final size check.
use vstd::prelude::*;

verus! {

/// Decimal digit `'0'..='9'`.
pub open spec fn is_digit(c: char) -> bool {
    '0' <= c && c <= '9'
}

/// Value of a string of decimal digits, most significant first.
pub open spec fn digits_value(d: Seq<char>) -> nat
    decreases d.len(),
{
    if d.len() == 0 {
        0
    } else {
        digits_value(d.drop_last()) * 10 + ((d.last() as int - '0' as int) as nat)
    }
}

/// The digits of an unsigned decimal: the text without one leading `+`, if it has one.
pub open spec fn unsigned_digits(s: Seq<char>) -> Seq<char> {
    if s.len() > 0 && s[0] == '+' {
        s.drop_first()
    } else {
        s
    }
}

/// How `str::parse` reads an unsigned integer type whose largest value is `max`: an optional
/// `+` and then one or more decimal digits, with nothing before or after, whose value is at
/// most `max`; anything else is refused.
pub open spec fn parse_unsigned(s: Seq<char>, max: nat) -> Option<nat> {
    let d = unsigned_digits(s);
    if d.len() > 0 && (forall|i: int| 0 <= i < d.len() ==> is_digit(#[trigger] d[i])) && digits_value(d)
        <= max {
        Some(digits_value(d))
    } else {
        None
    }
}

/// A longer run of digits is worth at least as much as any prefix of it.
proof fn lemma_digits_value_prefix(d: Seq<char>, i: int)
    requires
        0 <= i <= d.len(),
        forall|k: int| 0 <= k < d.len() ==> is_digit(#[trigger] d[k]),
    ensures
        digits_value(d.take(i)) <= digits_value(d),
    decreases d.len() - i,
{
    if i < d.len() {
        lemma_digits_value_prefix(d, i + 1);
        assert(d.take(i + 1).drop_last() =~= d.take(i));
        assert(is_digit(d[i]));
    } else {
        assert(d.take(i) =~= d);
    }
}

/// Decimal reading, case of no text: the empty text and a lone `+` are refused.
pub proof fn lemma_parse_unsigned_empty(max: nat)
    ensures
        parse_unsigned(Seq::<char>::empty(), max) is None,
        parse_unsigned(seq!['+'], max) is None,
{
    assert(seq!['+'].drop_first() =~= Seq::<char>::empty());
}

/// Decimal reading, case of one character: a digit is read as its value when that value is at
/// most `max`; anything else is refused.
pub proof fn lemma_parse_unsigned_one(c: char, max: nat)
    ensures
        parse_unsigned(seq![c], max) == (if '0' <= c <= '9' && (c as int - '0' as int) <= max {
            Some((c as int - '0' as int) as nat)
        } else {
            None
        }),
{
    let d = seq![c];
    if c != '+' {
        assert(unsigned_digits(d) == d);
        assert(d.drop_last() =~= Seq::<char>::empty());
        assert(digits_value(Seq::<char>::empty()) == 0);
        assert(d.last() == c);
        if !('0' <= c <= '9') {
            assert(!is_digit(d[0]));
        } else {
            assert(digits_value(d) == (c as int - '0' as int));
            assert(forall|i: int| 0 <= i < d.len() ==> is_digit(#[trigger] d[i]));
        }
    } else {
        assert(d.drop_first() =~= Seq::<char>::empty());
    }
}

/// Decimal reading, one more character: after a text read as `v`, a digit `c` gives
/// `10 * v + c` when that is at most `max`, and anything else is refused.
pub proof fn lemma_parse_unsigned_push(d: Seq<char>, c: char, max: nat, v: nat)
    requires
        parse_unsigned(d, max) == Some(v),
    ensures
        parse_unsigned(d.push(c), max) == (if '0' <= c <= '9' && v * 10 + (c as int - '0' as int) <= max {
            Some((v * 10 + (c as int - '0' as int)) as nat)
        } else {
            None
        }),
{
    let u = unsigned_digits(d);
    let w = unsigned_digits(d.push(c));
    assert(d.len() > 0);
    if d[0] == '+' {
        assert(d.push(c)[0] == '+');
        assert(w =~= u.push(c));
    } else {
        assert(w =~= u.push(c));
    }
    assert(w.drop_last() =~= u);
    assert(w.last() == c);
    if !('0' <= c <= '9') {
        assert(!is_digit(w[w.len() - 1]));
    } else {
        assert(digits_value(w) == v * 10 + (c as int - '0' as int));
        assert forall|i: int| 0 <= i < w.len() implies is_digit(#[trigger] w[i]) by {
            if i < u.len() {
                assert(w[i] == u[i]);
            }
        }
    }
}

/// Decimal reading, one more character after a refused text: once a text other than a lone `+`
/// is refused, every longer text is refused too.
pub proof fn lemma_parse_unsigned_push_refused(d: Seq<char>, c: char, max: nat)
    requires
        parse_unsigned(d, max) is None,
        d.len() > 0,
        d != seq!['+'],
    ensures
        parse_unsigned(d.push(c), max) is None,
{
    let u = unsigned_digits(d);
    let w = unsigned_digits(d.push(c));
    if d[0] == '+' {
        assert(d.push(c)[0] == '+');
        assert(w =~= u.push(c));
        if u.len() == 0 {
            assert(d =~= seq!['+']);
        }
    } else {
        assert(w =~= u.push(c));
    }
    assert(u.len() > 0);
    assert(w.drop_last() =~= u);
    if forall|i: int| 0 <= i < w.len() ==> is_digit(#[trigger] w[i]) {
        assert forall|i: int| 0 <= i < u.len() implies is_digit(#[trigger] u[i]) by {
            assert(w[i] == u[i]);
        }
        assert(is_digit(w[w.len() - 1]));
        assert(digits_value(u) > max);
        assert(digits_value(w) == digits_value(u) * 10 + (c as int - '0' as int));
    }
}

/// Decimal reading, sign: one leading `+` before a text that does not itself start with `+`
/// changes nothing.
pub proof fn lemma_parse_unsigned_plus(d: Seq<char>, max: nat)
    requires
        d.len() == 0 || d[0] != '+',
    ensures
        parse_unsigned(seq!['+'] + d, max) == parse_unsigned(d, max),
{
    assert((seq!['+'] + d).drop_first() =~= d);
    assert(unsigned_digits(d) == d);
}

/// Whether two texts hold the same characters.
pub fn same_text(a: &str, b: &str) -> (r: bool)
    ensures
        r == (a@ == b@),
{
    let la: usize = a.unicode_len();
    let lb: usize = b.unicode_len();
    if la != lb {
        return false;
    }
    let mut i: usize = 0;
    while i < la
        invariant
            la == a@.len(),
            lb == b@.len(),
            la == lb,
            i <= la,
            forall|k: int| 0 <= k < i ==> a@[k] == b@[k],
        decreases la - i,
    {
        if a.get_char(i) != b.get_char(i) {
            return false;
        }
        i = i + 1;
    }
    assert(a@ =~= b@);
    true
}

/// Reads `s` as an unsigned decimal no larger than `max`, as `str::parse` does for unsigned
/// integer types.
pub fn parse_unsigned_text(s: &str, max: u64) -> (r: Option<u64>)
    ensures
        match parse_unsigned(s@, max as nat) {
            Some(v) => r == Some(v as u64),
            None => r is None,
        },
{
    let len: usize = s.unicode_len();
    let mut start: usize = 0;
    if len > 0 && s.get_char(0) == '+' {
        start = 1;
    }
    let ghost d: Seq<char> = unsigned_digits(s@);
    proof {
        if start == 1 {
            assert(d =~= s@.subrange(1, s@.len() as int));
        } else {
            assert(d =~= s@);
        }
    }
    if start == len {
        return None;
    }
    let mut value: u64 = 0;
    let mut i: usize = start;
    while i < len
        invariant
            len == s@.len(),
            start <= i <= len,
            start < len,
            d == unsigned_digits(s@),
            d.len() == len - start,
            forall|k: int| 0 <= k < d.len() ==> d[k] == s@[k + start],
            forall|k: int| 0 <= k < i - start ==> is_digit(#[trigger] d[k]),
            value as nat == digits_value(d.take(i - start)),
            value <= max,
        decreases len - i,
    {
        let c: char = s.get_char(i);
        if c < '0' || c > '9' {
            assert(!is_digit(d[i - start]));
            return None;
        }
        let digit: u64 = (c as u64) - ('0' as u64);
        let wide: u128 = (value as u128) * 10 + (digit as u128);
        let ghost j: int = i - start;
        assert(d.take(j + 1).drop_last() =~= d.take(j));
        assert(wide == digits_value(d.take(j + 1)));
        if wide > max as u128 {
            proof {
                if forall|k: int| 0 <= k < d.len() ==> is_digit(#[trigger] d[k]) {
                    lemma_digits_value_prefix(d, j + 1);
                }
            }
            return None;
        }
        value = wide as u64;
        i = i + 1;
    }
    assert(d.take(d.len() as int) =~= d);
    Some(value)
}

/// Text of the error for a flag given as the last argument.
pub open spec fn missing_value_message(flag: Seq<char>) -> Seq<char> {
    "missing value after "@ + flag
}

/// Text of the error for a flag whose value does not parse as `kind`.
pub open spec fn invalid_value_message(kind: Seq<char>, flag: Seq<char>, value: Seq<char>) -> Seq<char> {
    "invalid "@ + kind + " for "@ + flag + ": "@ + value
}

fn missing_value_error(flag: &str) -> (e: String)
    ensures
        e@ == missing_value_message(flag@),
{
    let mut e = String::from_str("missing value after ");
    e.append(flag);
    e
}

fn invalid_value_error(kind: &str, flag: &str, value: &str) -> (e: String)
    ensures
        e@ == invalid_value_message(kind@, flag@, value@),
{
    let mut e = String::from_str("invalid ");
    e.append(kind);
    e.append(" for ");
    e.append(flag);
    e.append(": ");
    e.append(value);
    e
}

/// The value of `flag` read as an unsigned integer type named `kind` with largest value `max`,
/// taken from `args[pos]`.
pub open spec fn flag_value(
    args: Seq<Seq<char>>,
    pos: int,
    kind: Seq<char>,
    max: nat,
    flag: Seq<char>,
) -> Result<nat, Seq<char>> {
    if pos >= args.len() {
        Err(missing_value_message(flag))
    } else {
        match parse_unsigned(args[pos], max) {
            Some(v) => Ok(v),
            None => Err(invalid_value_message(kind, flag, args[pos])),
        }
    }
}

/// Reads the value of `flag` from `args[*pos]` as a `usize`, moving `*pos` past it when there is
/// one.
pub fn parse_usize(args: &Vec<String>, pos: &mut usize, flag: &str) -> (r: Result<usize, String>)
    requires
        *old(pos) <= args@.len(),
    ensures
        *old(pos) < args@.len() ==> *final(pos) == *old(pos) + 1,
        *old(pos) >= args@.len() ==> *final(pos) == *old(pos),
        match flag_value(args.deep_view(), *old(pos) as int, "usize"@, usize::MAX as nat, flag@) {
            Ok(v) => r == Ok::<usize, String>(v as usize),
            Err(e) => r matches Err(m) && m@ == e,
        },
{
    if *pos >= args.len() {
        return Err(missing_value_error(flag));
    }
    let v: &String = &args[*pos];
    *pos = *pos + 1;
    proof {
        assert(args.deep_view()[*old(pos) as int] == v@);
    }
    match parse_unsigned_text(v.as_str(), usize::MAX as u64) {
        Some(x) => Ok(x as usize),
        None => Err(invalid_value_error("usize", flag, v.as_str())),
    }
}

/// Reads the value of `flag` from `args[*pos]` as a `u32`, moving `*pos` past it when there is
/// one.
pub fn parse_u32(args: &Vec<String>, pos: &mut usize, flag: &str) -> (r: Result<u32, String>)
    requires
        *old(pos) <= args@.len(),
    ensures
        *old(pos) < args@.len() ==> *final(pos) == *old(pos) + 1,
        *old(pos) >= args@.len() ==> *final(pos) == *old(pos),
        match flag_value(args.deep_view(), *old(pos) as int, "u32"@, u32::MAX as nat, flag@) {
            Ok(v) => r == Ok::<u32, String>(v as u32),
            Err(e) => r matches Err(m) && m@ == e,
        },
{
    if *pos >= args.len() {
        return Err(missing_value_error(flag));
    }
    let v: &String = &args[*pos];
    *pos = *pos + 1;
    proof {
        assert(args.deep_view()[*old(pos) as int] == v@);
    }
    match parse_unsigned_text(v.as_str(), u32::MAX as u64) {
        Some(x) => Ok(x as u32),
        None => Err(invalid_value_error("u32", flag, v.as_str())),
    }
}

/// Settings of one run as the parser sees them; `tol` is the text given after the last `--tol`.
pub struct Settings {
    pub l: usize,
    pub m: usize,
    pub n: usize,
    pub seed: u32,
    pub tol: Option<Seq<char>>,
    pub skip_sse2: bool,
}

/// What a command line asks for: a run with settings, or the usage text.
pub enum Parsed {
    Run(Settings),
    Help,
}

/// Settings when no flag is given: `L = M = N = 16`, seed 42, default tolerance, SSE2 run.
pub open spec fn default_settings() -> Settings {
    Settings { l: 16, m: 16, n: 16, seed: 42, tol: None, skip_sse2: false }
}

/// Text of the error for an argument that is no flag.
pub open spec fn unknown_argument_message(arg: Seq<char>) -> Seq<char> {
    "unknown argument: "@ + arg
}

/// Text of the error for a zero size.
pub open spec fn zero_size_message() -> Seq<char> {
    "L, M, N must be > 0"@
}

/// Reading of `args[pos..]` with the settings `acc` gathered so far. Arguments are read left
/// to right; the first help flag or error ends the reading; a flag given twice keeps its last
/// value; `float_ok[i]` tells whether `args[i]` parses as a 32-bit float. At the end every size
/// must be positive.
pub open spec fn parse_from(
    args: Seq<Seq<char>>,
    float_ok: Seq<bool>,
    pos: nat,
    acc: Settings,
) -> Result<Parsed, Seq<char>>
    decreases args.len() - pos,
{
    if pos >= args.len() {
        if acc.l == 0 || acc.m == 0 || acc.n == 0 {
            Err(zero_size_message())
        } else {
            Ok(Parsed::Run(acc))
        }
    } else {
        let arg = args[pos as int];
        if arg == "-h"@ || arg == "--help"@ {
            Ok(Parsed::Help)
        } else if arg == "--l"@ || arg == "--m"@ || arg == "--n"@ {
            match flag_value(args, pos + 1 as int, "usize"@, usize::MAX as nat, arg) {
                Ok(v) => parse_from(
                    args,
                    float_ok,
                    pos + 2,
                    Settings {
                        l: if arg == "--l"@ { v as usize } else { acc.l },
                        m: if arg == "--m"@ { v as usize } else { acc.m },
                        n: if arg == "--n"@ { v as usize } else { acc.n },
                        seed: acc.seed,
                        tol: acc.tol,
                        skip_sse2: acc.skip_sse2,
                    },
                ),
                Err(e) => Err(e),
            }
        } else if arg == "--seed"@ {
            match flag_value(args, pos + 1 as int, "u32"@, u32::MAX as nat, arg) {
                Ok(v) => parse_from(
                    args,
                    float_ok,
                    pos + 2,
                    Settings {
                        l: acc.l,
                        m: acc.m,
                        n: acc.n,
                        seed: v as u32,
                        tol: acc.tol,
                        skip_sse2: acc.skip_sse2,
                    },
                ),
                Err(e) => Err(e),
            }
        } else if arg == "--tol"@ {
            if pos + 1 >= args.len() {
                Err(missing_value_message(arg))
            } else if !float_ok[pos + 1 as int] {
                Err(invalid_value_message("f32"@, arg, args[pos + 1 as int]))
            } else {
                parse_from(
                    args,
                    float_ok,
                    pos + 2,
                    Settings {
                        l: acc.l,
                        m: acc.m,
                        n: acc.n,
                        seed: acc.seed,
                        tol: Some(args[pos + 1 as int]),
                        skip_sse2: acc.skip_sse2,
                    },
                )
            }
        } else if arg == "--skip-sse2"@ {
            parse_from(
                args,
                float_ok,
                pos + 1,
                Settings {
                    l: acc.l,
                    m: acc.m,
                    n: acc.n,
                    seed: acc.seed,
                    tol: acc.tol,
                    skip_sse2: true,
                },
            )
        } else {
            Err(unknown_argument_message(arg))
        }
    }
}

/// The tolerance text, if any, is one of the arguments and one that parses as a 32-bit float.
pub open spec fn tol_is_float_argument(args: Seq<Seq<char>>, float_ok: Seq<bool>, tol: Option<Seq<char>>) -> bool {
    match tol {
        None => true,
        Some(t) => exists|i: int| 0 <= i < args.len() && float_ok[i] && #[trigger] args[i] == t,
    }
}

/// A reading that ends in a run has positive sizes, and its tolerance text is an argument that
/// parses as a 32-bit float, whatever the settings gathered before `pos`, as long as their
/// tolerance text was such an argument.
pub proof fn lemma_parse_from_run(args: Seq<Seq<char>>, float_ok: Seq<bool>, pos: nat, acc: Settings)
    requires
        float_ok.len() == args.len(),
        tol_is_float_argument(args, float_ok, acc.tol),
    ensures
        parse_from(args, float_ok, pos, acc) matches Ok(Parsed::Run(s)) ==> {
            &&& s.l > 0
            &&& s.m > 0
            &&& s.n > 0
            &&& tol_is_float_argument(args, float_ok, s.tol)
        },
    decreases args.len() - pos,
{
    if pos < args.len() {
        let arg = args[pos as int];
        if arg == "-h"@ || arg == "--help"@ {
        } else if arg == "--l"@ || arg == "--m"@ || arg == "--n"@ {
            if let Ok(v) = flag_value(args, pos + 1 as int, "usize"@, usize::MAX as nat, arg) {
                lemma_parse_from_run(
                    args,
                    float_ok,
                    pos + 2,
                    Settings {
                        l: if arg == "--l"@ { v as usize } else { acc.l },
                        m: if arg == "--m"@ { v as usize } else { acc.m },
                        n: if arg == "--n"@ { v as usize } else { acc.n },
                        seed: acc.seed,
                        tol: acc.tol,
                        skip_sse2: acc.skip_sse2,
                    },
                );
            }
        } else if arg == "--seed"@ {
            if let Ok(v) = flag_value(args, pos + 1 as int, "u32"@, u32::MAX as nat, arg) {
                lemma_parse_from_run(
                    args,
                    float_ok,
                    pos + 2,
                    Settings {
                        l: acc.l,
                        m: acc.m,
                        n: acc.n,
                        seed: v as u32,
                        tol: acc.tol,
                        skip_sse2: acc.skip_sse2,
                    },
                );
            }
        } else if arg == "--tol"@ {
            if pos + 1 < args.len() && float_ok[pos + 1 as int] {
                lemma_parse_from_run(
                    args,
                    float_ok,
                    pos + 2,
                    Settings {
                        l: acc.l,
                        m: acc.m,
                        n: acc.n,
                        seed: acc.seed,
                        tol: Some(args[pos + 1 as int]),
                        skip_sse2: acc.skip_sse2,
                    },
                );
            }
        } else if arg == "--skip-sse2"@ {
            lemma_parse_from_run(
                args,
                float_ok,
                pos + 1,
                Settings {
                    l: acc.l,
                    m: acc.m,
                    n: acc.n,
                    seed: acc.seed,
                    tol: acc.tol,
                    skip_sse2: true,
                },
            );
        }
    }
}

/// Every command line that parses to a run has `L`, `M`, `N` all positive, and a tolerance
/// text, if any, that is one of the arguments and parses as a 32-bit float.
pub proof fn lemma_parsed_run_is_valid(args: Seq<Seq<char>>, float_ok: Seq<bool>)
    requires
        float_ok.len() == args.len(),
    ensures
        parse_from(args, float_ok, 0, default_settings()) matches Ok(Parsed::Run(s)) ==> {
            &&& s.l > 0
            &&& s.m > 0
            &&& s.n > 0
            &&& tol_is_float_argument(args, float_ok, s.tol)
        },
{
    lemma_parse_from_run(args, float_ok, 0, default_settings());
}

/// A reading of `args` from `pos` that ends in a run with settings `s` reads a longer command
/// line `args ++ extra` in the same way: it reaches the end of `args` holding exactly `s`.
proof fn lemma_parse_from_prefix(
    args: Seq<Seq<char>>,
    float_ok: Seq<bool>,
    extra: Seq<Seq<char>>,
    extra_ok: Seq<bool>,
    pos: nat,
    acc: Settings,
    s: Settings,
)
    requires
        float_ok.len() == args.len(),
        extra_ok.len() == extra.len(),
        pos <= args.len(),
        parse_from(args, float_ok, pos, acc) == Ok::<Parsed, Seq<char>>(Parsed::Run(s)),
    ensures
        parse_from(args + extra, float_ok + extra_ok, pos, acc) == parse_from(
            args + extra,
            float_ok + extra_ok,
            args.len(),
            s,
        ),
    decreases args.len() - pos,
{
    let full = args + extra;
    let full_ok = float_ok + extra_ok;
    if pos < args.len() {
        let arg = args[pos as int];
        assert(full[pos as int] == arg);
        if arg == "--l"@ || arg == "--m"@ || arg == "--n"@ {
            if let Ok(v) = flag_value(args, pos + 1 as int, "usize"@, usize::MAX as nat, arg) {
                assert(full[pos + 1 as int] == args[pos + 1 as int]);
                lemma_parse_from_prefix(
                    args,
                    float_ok,
                    extra,
                    extra_ok,
                    pos + 2,
                    Settings {
                        l: if arg == "--l"@ { v as usize } else { acc.l },
                        m: if arg == "--m"@ { v as usize } else { acc.m },
                        n: if arg == "--n"@ { v as usize } else { acc.n },
                        seed: acc.seed,
                        tol: acc.tol,
                        skip_sse2: acc.skip_sse2,
                    },
                    s,
                );
            }
        } else if arg == "--seed"@ {
            if let Ok(v) = flag_value(args, pos + 1 as int, "u32"@, u32::MAX as nat, arg) {
                assert(full[pos + 1 as int] == args[pos + 1 as int]);
                lemma_parse_from_prefix(
                    args,
                    float_ok,
                    extra,
                    extra_ok,
                    pos + 2,
                    Settings {
                        l: acc.l,
                        m: acc.m,
                        n: acc.n,
                        seed: v as u32,
                        tol: acc.tol,
                        skip_sse2: acc.skip_sse2,
                    },
                    s,
                );
            }
        } else if arg == "--tol"@ {
            if pos + 1 < args.len() && float_ok[pos + 1 as int] {
                assert(full[pos + 1 as int] == args[pos + 1 as int]);
                assert(full_ok[pos + 1 as int] == float_ok[pos + 1 as int]);
                lemma_parse_from_prefix(
                    args,
                    float_ok,
                    extra,
                    extra_ok,
                    pos + 2,
                    Settings {
                        l: acc.l,
                        m: acc.m,
                        n: acc.n,
                        seed: acc.seed,
                        tol: Some(args[pos + 1 as int]),
                        skip_sse2: acc.skip_sse2,
                    },
                    s,
                );
            }
        } else if arg == "--skip-sse2"@ {
            lemma_parse_from_prefix(
                args,
                float_ok,
                extra,
                extra_ok,
                pos + 1,
                Settings {
                    l: acc.l,
                    m: acc.m,
                    n: acc.n,
                    seed: acc.seed,
                    tol: acc.tol,
                    skip_sse2: true,
                },
                s,
            );
        }
    }
}

/// A size flag sets its own size and nothing else: appending `flag value` (`flag` one of
/// `--l`, `--m`, `--n`, `value` a decimal `x`) to a command line that reads as a run with
/// settings `s` gives the run with that one size replaced by `x`, every other setting kept —
/// or the size error when `x` is 0.
pub proof fn lemma_size_flag_sets_only_its_size(
    args: Seq<Seq<char>>,
    float_ok: Seq<bool>,
    s: Settings,
    value: Seq<char>,
    x: nat,
    flag_ok: bool,
    value_ok: bool,
)
    requires
        float_ok.len() == args.len(),
        parse_from(args, float_ok, 0, default_settings()) == Ok::<Parsed, Seq<char>>(Parsed::Run(s)),
        parse_unsigned(value, usize::MAX as nat) == Some(x),
    ensures
        ({
            let r = parse_from(args + seq!["--l"@, value], float_ok + seq![flag_ok, value_ok], 0, default_settings());
            &&& x == 0 ==> r == Err::<Parsed, Seq<char>>(zero_size_message())
            &&& x > 0 ==> r == Ok::<Parsed, Seq<char>>(Parsed::Run(
                Settings { l: x as usize, m: s.m, n: s.n, seed: s.seed, tol: s.tol, skip_sse2: s.skip_sse2 },
            ))
        }),
        ({
            let r = parse_from(args + seq!["--m"@, value], float_ok + seq![flag_ok, value_ok], 0, default_settings());
            &&& x == 0 ==> r == Err::<Parsed, Seq<char>>(zero_size_message())
            &&& x > 0 ==> r == Ok::<Parsed, Seq<char>>(Parsed::Run(
                Settings { l: s.l, m: x as usize, n: s.n, seed: s.seed, tol: s.tol, skip_sse2: s.skip_sse2 },
            ))
        }),
        ({
            let r = parse_from(args + seq!["--n"@, value], float_ok + seq![flag_ok, value_ok], 0, default_settings());
            &&& x == 0 ==> r == Err::<Parsed, Seq<char>>(zero_size_message())
            &&& x > 0 ==> r == Ok::<Parsed, Seq<char>>(Parsed::Run(
                Settings { l: s.l, m: s.m, n: x as usize, seed: s.seed, tol: s.tol, skip_sse2: s.skip_sse2 },
            ))
        }),
{
    reveal_strlit("-h");
    reveal_strlit("--help");
    reveal_strlit("--l");
    reveal_strlit("--m");
    reveal_strlit("--n");
    assert("--l"@[2] != "--m"@[2]);
    assert("--l"@[2] != "--n"@[2]);
    assert("--m"@[2] != "--n"@[2]);
    assert("--l"@.len() != "-h"@.len() && "--l"@.len() != "--help"@.len());
    lemma_parsed_run_is_valid(args, float_ok);
    let n = args.len();
    let extra_ok = seq![flag_ok, value_ok];
    let el = seq!["--l"@, value];
    let em = seq!["--m"@, value];
    let en = seq!["--n"@, value];
    lemma_parse_from_prefix(args, float_ok, el, extra_ok, 0, default_settings(), s);
    lemma_parse_from_prefix(args, float_ok, em, extra_ok, 0, default_settings(), s);
    lemma_parse_from_prefix(args, float_ok, en, extra_ok, 0, default_settings(), s);
    let sl = Settings { l: x as usize, m: s.m, n: s.n, seed: s.seed, tol: s.tol, skip_sse2: s.skip_sse2 };
    let sm = Settings { l: s.l, m: x as usize, n: s.n, seed: s.seed, tol: s.tol, skip_sse2: s.skip_sse2 };
    let sn = Settings { l: s.l, m: s.m, n: x as usize, seed: s.seed, tol: s.tol, skip_sse2: s.skip_sse2 };
    assert((args + el)[n as int] == "--l"@);
    assert((args + el)[n + 1 as int] == value);
    assert(flag_value(args + el, n + 1 as int, "usize"@, usize::MAX as nat, "--l"@) == Ok::<nat, Seq<char>>(x));
    assert(parse_from(args + el, float_ok + extra_ok, n + 2, sl) == (if x == 0 {
        Err::<Parsed, Seq<char>>(zero_size_message())
    } else {
        Ok::<Parsed, Seq<char>>(Parsed::Run(sl))
    }));
    assert(parse_from(args + el, float_ok + extra_ok, n, s) == parse_from(args + el, float_ok + extra_ok, n + 2, sl));
    assert((args + em)[n as int] == "--m"@);
    assert((args + em)[n + 1 as int] == value);
    assert(flag_value(args + em, n + 1 as int, "usize"@, usize::MAX as nat, "--m"@) == Ok::<nat, Seq<char>>(x));
    assert(parse_from(args + em, float_ok + extra_ok, n + 2, sm) == (if x == 0 {
        Err::<Parsed, Seq<char>>(zero_size_message())
    } else {
        Ok::<Parsed, Seq<char>>(Parsed::Run(sm))
    }));
    assert(parse_from(args + em, float_ok + extra_ok, n, s) == parse_from(args + em, float_ok + extra_ok, n + 2, sm));
    assert((args + en)[n as int] == "--n"@);
    assert((args + en)[n + 1 as int] == value);
    assert(flag_value(args + en, n + 1 as int, "usize"@, usize::MAX as nat, "--n"@) == Ok::<nat, Seq<char>>(x));
    assert(parse_from(args + en, float_ok + extra_ok, n + 2, sn) == (if x == 0 {
        Err::<Parsed, Seq<char>>(zero_size_message())
    } else {
        Ok::<Parsed, Seq<char>>(Parsed::Run(sn))
    }));
    assert(parse_from(args + en, float_ok + extra_ok, n, s) == parse_from(args + en, float_ok + extra_ok, n + 2, sn));
}

/// With no other argument, `--l value` changes only `L`: `M` and `N` keep their default 16.
pub proof fn lemma_lone_size_flag(value: Seq<char>, x: nat, flag_ok: bool, value_ok: bool)
    requires
        parse_unsigned(value, usize::MAX as nat) == Some(x),
        x > 0,
    ensures
        parse_from(seq!["--l"@, value], seq![flag_ok, value_ok], 0, default_settings()) == Ok::<
            Parsed,
            Seq<char>,
        >(Parsed::Run(Settings { l: x as usize, m: 16, n: 16, seed: 42, tol: None, skip_sse2: false })),
{
    let empty = Seq::<Seq<char>>::empty();
    let no_ok = Seq::<bool>::empty();
    assert(parse_from(empty, no_ok, 0, default_settings()) == Ok::<Parsed, Seq<char>>(
        Parsed::Run(default_settings()),
    ));
    lemma_size_flag_sets_only_its_size(empty, no_ok, default_settings(), value, x, flag_ok, value_ok);
    assert(empty + seq!["--l"@, value] =~= seq!["--l"@, value]);
    assert(no_ok + seq![flag_ok, value_ok] =~= seq![flag_ok, value_ok]);
}

/// Settings of one run. `tol` is the text given after the last `--tol`, known to parse as a
/// 32-bit float; `None` keeps the default tolerance.
pub struct Args {
    pub l: usize,
    pub m: usize,
    pub n: usize,
    pub seed: u32,
    pub tol: Option<String>,
    pub skip_sse2: bool,
}

impl Args {
    /// The settings these arguments hold.
    pub open spec fn settings(&self) -> Settings {
        Settings {
            l: self.l,
            m: self.m,
            n: self.n,
            seed: self.seed,
            tol: match self.tol {
                Some(t) => Some(t@),
                None => None,
            },
            skip_sse2: self.skip_sse2,
        }
    }
}

/// What a command line asks for: a run, or the usage text.
pub enum Command {
    Run(Args),
    Help,
}

/// The reading a parse result stands for.
pub open spec fn outcome(r: Result<Command, String>) -> Result<Parsed, Seq<char>> {
    match r {
        Ok(Command::Run(a)) => Ok(Parsed::Run(a.settings())),
        Ok(Command::Help) => Ok(Parsed::Help),
        Err(e) => Err(e@),
    }
}

/// Reads the arguments that follow the program name. `float_ok[i]` tells whether `args[i]`
/// parses as a 32-bit float; the result is the reading `parse_from` gives from the start with the
/// default settings.
pub fn parse_args(args: &Vec<String>, float_ok: &Vec<bool>) -> (r: Result<Command, String>)
    requires
        float_ok@.len() == args@.len(),
    ensures
        outcome(r) == parse_from(args.deep_view(), float_ok@, 0, default_settings()),
{
    let ghost view: Seq<Seq<char>> = args.deep_view();
    let mut acc = Args { l: 16, m: 16, n: 16, seed: 42, tol: None, skip_sse2: false };
    let mut pos: usize = 0;
    while pos < args.len()
        invariant
            view == args.deep_view(),
            view.len() == args@.len(),
            float_ok@.len() == args@.len(),
            pos <= args@.len(),
            parse_from(view, float_ok@, 0, default_settings()) == parse_from(
                view,
                float_ok@,
                pos as nat,
                acc.settings(),
            ),
        decreases args@.len() - pos,
    {
        let arg: &str = args[pos].as_str();
        assert(view[pos as int] == arg@);
        pos = pos + 1;
        proof {
            reveal_strlit("--l");
            reveal_strlit("--m");
            reveal_strlit("--n");
            assert("--l"@[2] != "--m"@[2]);
            assert("--l"@[2] != "--n"@[2]);
            assert("--m"@[2] != "--n"@[2]);
        }
        if same_text(arg, "-h") || same_text(arg, "--help") {
            return Ok(Command::Help);
        } else if same_text(arg, "--l") {
            match parse_usize(args, &mut pos, "--l") {
                Ok(v) => {
                    acc.l = v;
                },
                Err(e) => {
                    return Err(e);
                },
            }
        } else if same_text(arg, "--m") {
            match parse_usize(args, &mut pos, "--m") {
                Ok(v) => {
                    acc.m = v;
                },
                Err(e) => {
                    return Err(e);
                },
            }
        } else if same_text(arg, "--n") {
            match parse_usize(args, &mut pos, "--n") {
                Ok(v) => {
                    acc.n = v;
                },
                Err(e) => {
                    return Err(e);
                },
            }
        } else if same_text(arg, "--seed") {
            match parse_u32(args, &mut pos, "--seed") {
                Ok(v) => {
                    acc.seed = v;
                },
                Err(e) => {
                    return Err(e);
                },
            }
        } else if same_text(arg, "--tol") {
            if pos >= args.len() {
                return Err(missing_value_error("--tol"));
            }
            if !float_ok[pos] {
                return Err(invalid_value_error("f32", "--tol", args[pos].as_str()));
            }
            acc.tol = Some(args[pos].clone());
            pos = pos + 1;
        } else if same_text(arg, "--skip-sse2") {
            acc.skip_sse2 = true;
        } else {
            let mut e = String::from_str("unknown argument: ");
            e.append(arg);
            return Err(e);
        }
    }
    if acc.l == 0 || acc.m == 0 || acc.n == 0 {
        return Err(String::from_str("L, M, N must be > 0"));
    }
    Ok(Command::Run(acc))
}

} // verus!
