//! Building a cleanup configuration from raw argument tokens: a target
//! directory path and a threshold of seconds, turned into a cutoff instant.

use vstd::prelude::*;
use vstd::string::StrSliceExecFns;

use crate::time::Timestamp;
use crate::time::NANOS_PER_SEC;

verus! {

/// Why configuration building failed.
#[derive(Clone, Copy, Debug, PartialEq, Eq, Structural)]
pub enum ConfigError {
    /// The directory token or the threshold token was absent.
    MissingArgument,
    /// The threshold token is not the decimal spelling of a non-negative
    /// integer number of seconds.
    InvalidThreshold,
}

impl ConfigError {
    /// A human-readable account of the failure.
    pub fn message(&self) -> (r: &'static str)
        ensures
            *self is MissingArgument ==> r@ == "expected a directory and a threshold argument"@,
            *self is InvalidThreshold ==> r@ == "invalid threshold argument"@,
    {
        match self {
            ConfigError::MissingArgument => "expected a directory and a threshold argument",
            ConfigError::InvalidThreshold => "invalid threshold argument",
        }
    }
}

/// A decimal digit.
pub open spec fn is_digit_char(c: char) -> bool {
    '0' as u32 <= c as u32 <= '9' as u32
}

/// The numeric value of one decimal digit.
pub open spec fn digit_value(c: char) -> int {
    c as u32 - '0' as u32
}

pub open spec fn all_digits(s: Seq<char>) -> bool {
    forall|i: int| 0 <= i < s.len() ==> is_digit_char(#[trigger] s[i])
}

/// The value of a string of decimal digits, most significant first.
pub open spec fn digits_value(s: Seq<char>) -> int
    decreases s.len(),
{
    if s.len() == 0 {
        0
    } else {
        digits_value(s.drop_last()) * 10 + digit_value(s.last())
    }
}

/// The digits of a threshold token; one leading `+` sign is allowed.
pub open spec fn digits_part(s: Seq<char>) -> Seq<char> {
    if s.len() > 0 && s[0] == '+' {
        s.drop_first()
    } else {
        s
    }
}

/// The tokens accepted as a threshold: the decimal spellings of the
/// integers that fit in a `u64`, with an optional leading `+`.
pub open spec fn valid_u64_string(s: Seq<char>) -> bool {
    &&& digits_part(s).len() > 0
    &&& all_digits(digits_part(s))
    &&& digits_value(digits_part(s)) <= u64::MAX
}

/// The threshold a valid token spells.
pub open spec fn u64_string_value(s: Seq<char>) -> int {
    digits_value(digits_part(s))
}

proof fn lemma_digits_value_nonneg(s: Seq<char>)
    requires
        all_digits(s),
    ensures
        digits_value(s) >= 0,
    decreases s.len(),
{
    if s.len() > 0 {
        assert(all_digits(s.drop_last()));
        lemma_digits_value_nonneg(s.drop_last());
    }
}

/// On digit strings the value never shrinks as the string grows to the
/// right: the value of a prefix bounds the value of the whole from below.
proof fn lemma_digits_value_prefix(s: Seq<char>, i: int)
    requires
        all_digits(s),
        0 <= i <= s.len(),
    ensures
        digits_value(s.take(i)) <= digits_value(s),
    decreases s.len() - i,
{
    if i < s.len() {
        lemma_digits_value_prefix(s, i + 1);
        assert(s.take(i + 1).drop_last() =~= s.take(i));
        assert(all_digits(s.take(i)));
        lemma_digits_value_nonneg(s.take(i));
    } else {
        assert(s.take(i) =~= s);
    }
}

/// Parses the decimal spelling of a `u64`, with an optional leading `+`,
/// as `str::parse::<u64>` accepts it.
fn parse_u64(s: &str) -> (r: Option<u64>)
    ensures
        r is Some <==> valid_u64_string(s@),
        r matches Some(v) ==> v == u64_string_value(s@),
{
    let n = s.unicode_len();
    let mut start: usize = 0;
    if n > 0 && s.get_char(0) == '+' {
        start = 1;
    }
    assert(digits_part(s@) =~= s@.subrange(start as int, n as int));
    if start >= n {
        return None;
    }
    let ghost digits = s@.subrange(start as int, n as int);
    let mut acc: u64 = 0;
    let mut i = start;
    while i < n
        invariant
            start <= i <= n,
            n == s@.len(),
            digits =~= s@.subrange(start as int, n as int),
            digits =~= digits_part(s@),
            all_digits(digits.take(i - start)),
            acc == digits_value(digits.take(i - start)),
        decreases n - i,
    {
        let c = s.get_char(i);
        assert(digits[i - start] == s@[i as int]);
        let cv = c as u32;
        if cv < '0' as u32 || cv > '9' as u32 {
            assert(!is_digit_char(digits[i - start]));
            return None;
        }
        let d = (cv - '0' as u32) as u64;
        assert(digits.take(i - start + 1).drop_last() =~= digits.take(i - start));
        assert(digits.take(i - start + 1).last() == digits[i - start]);
        let next = match acc.checked_mul(10) {
            Some(a) => a.checked_add(d),
            None => None,
        };
        match next {
            Some(v) => {
                acc = v;
            },
            None => {
                // The digits read so far already exceed `u64::MAX`: if the
                // whole token is digits its value is at least theirs, and
                // otherwise it is no digit string at all.
                proof {
                    assert(digits_value(digits.take(i - start + 1)) > u64::MAX);
                    if all_digits(digits) {
                        lemma_digits_value_prefix(digits, i - start + 1);
                    }
                }
                return None;
            },
        }
        i += 1;
    }
    assert(digits.take(i - start) =~= digits);
    Some(acc)
}

/// The cutoff instant, in nanoseconds after the epoch: `threshold_secs`
/// seconds before `now`, clamped at the epoch itself (an instant before
/// the epoch keeps nothing more than the epoch would).
pub open spec fn cutoff_of(now: int, threshold_secs: int) -> int {
    if now - threshold_secs * (NANOS_PER_SEC as int) >= 0 {
        now - threshold_secs * (NANOS_PER_SEC as int)
    } else {
        0
    }
}

/// The instant `threshold` seconds before `now`, clamped at the epoch.
fn cutoff_timestamp(now: Timestamp, threshold: u64) -> (t: Timestamp)
    requires
        now.wf(),
    ensures
        t.wf(),
        t@ == cutoff_of(now@, threshold as int),
{
    if threshold <= now.secs {
        Timestamp { secs: now.secs - threshold, nanos: now.nanos }
    } else {
        Timestamp { secs: 0, nanos: 0 }
    }
}

/// Relies on `std::time::SystemTime::now`: the instant it reports is read
/// off as whole seconds and sub-second nanoseconds since
/// `std::time::UNIX_EPOCH`; `std::time::Duration` keeps its nanosecond
/// part below one second.  An instant before the epoch is reported as the
/// epoch itself.
#[verifier::external_body]
fn now_timestamp() -> (t: Timestamp)
    ensures
        t.wf(),
{
    let d = std::time::SystemTime::now()
        .duration_since(std::time::UNIX_EPOCH)
        .unwrap_or(std::time::Duration::ZERO);
    Timestamp { secs: d.as_secs(), nanos: d.subsec_nanos() }
}

/// What one cleanup run works on: the target directory and the cutoff
/// instant below which a file is deleted.
pub struct DeleteConfig {
    /// The target directory path.
    pub dir: String,
    /// Delete the files created strictly before this instant.
    pub cutoff_time: Timestamp,
}

impl DeleteConfig {
    /// The cutoff instant is well formed.
    pub open spec fn wf(&self) -> bool {
        self.cutoff_time.wf()
    }

    /// Builds a configuration from argument tokens, taking `now` as the
    /// invocation instant.  The first token (the program name) is
    /// discarded; then a directory token and a threshold token are
    /// required, and the cutoff is `threshold` seconds before `now`.
    /// No filesystem access happens here.
    pub fn build_at(args: &Vec<String>, now: Timestamp) -> (r: Result<DeleteConfig, ConfigError>)
        requires
            now.wf(),
        ensures
            (args@.len() < 3) <==> r == Err::<DeleteConfig, ConfigError>(
                ConfigError::MissingArgument,
            ),
            (args@.len() >= 3 && !valid_u64_string(args@[2]@)) <==> r == Err::<
                DeleteConfig,
                ConfigError,
            >(ConfigError::InvalidThreshold),
            args@.len() >= 3 && valid_u64_string(args@[2]@) ==> (r matches Ok(c) && c.dir@
                == args@[1]@ && c.wf() && c.cutoff_time@ == cutoff_of(
                now@,
                u64_string_value(args@[2]@),
            )),
    {
        if args.len() < 2 {
            // No directory token.
            return Err(ConfigError::MissingArgument);
        }
        if args.len() < 3 {
            // No threshold token.
            return Err(ConfigError::MissingArgument);
        }
        let threshold = match parse_u64(args[2].as_str()) {
            Some(t) => t,
            None => {
                return Err(ConfigError::InvalidThreshold);
            },
        };
        let dir = args[1].clone();
        let cutoff_time = cutoff_timestamp(now, threshold);
        Ok(DeleteConfig { dir, cutoff_time })
    }

    /// Builds a configuration from argument tokens, reading the clock for
    /// the invocation instant.  The errors do not depend on the clock;
    /// the cutoff instant does, so on success only its well-formedness
    /// is stated here, and [`DeleteConfig::build_at`] pins the cutoff for
    /// any given instant.
    pub fn build(args: Vec<String>) -> (r: Result<DeleteConfig, ConfigError>)
        ensures
            (args@.len() < 3) <==> r == Err::<DeleteConfig, ConfigError>(
                ConfigError::MissingArgument,
            ),
            (args@.len() >= 3 && !valid_u64_string(args@[2]@)) <==> r == Err::<
                DeleteConfig,
                ConfigError,
            >(ConfigError::InvalidThreshold),
            args@.len() >= 3 && valid_u64_string(args@[2]@) ==> (r matches Ok(c) && c.dir@
                == args@[1]@ && c.wf()),
    {
        let now = now_timestamp();
        Self::build_at(&args, now)
    }
}

} // verus!
