//! Process configuration for the surrounding HTTP server.
//!
//! The caller reads the raw settings from its environment; resolving them —
//! defaults for absent values, decimal parsing of the capacity — is plain
//! computation and is verified here.

use vstd::prelude::*;
use vstd::string::StrSliceExecFns;

verus! {

/// Whether `c` is a decimal digit.
pub open spec fn is_digit(c: char) -> bool {
    48 <= c as u32 <= 57
}

/// The numeric value of a digit character.
pub open spec fn digit_val(c: char) -> int {
    c as u32 - 48
}

/// Whether every character is a decimal digit.
pub open spec fn all_digits(s: Seq<char>) -> bool {
    forall|i: int| 0 <= i < s.len() ==> is_digit(#[trigger] s[i])
}

/// The decimal value of a digit string.
pub open spec fn dec_val(s: Seq<char>) -> int
    decreases s.len(),
{
    if s.len() == 0 {
        0
    } else {
        dec_val(s.drop_last()) * 10 + digit_val(s.last())
    }
}

/// The digit part of a capacity setting: an optional leading plus sign is
/// dropped, as the standard decimal parse of an unsigned word allows one.
pub open spec fn digits_of(s: Seq<char>) -> Seq<char> {
    if s.len() > 0 && s[0] == '+' {
        s.drop_first()
    } else {
        s
    }
}

/// The value of a digit string is never negative.
proof fn lemma_dec_val_nonneg(s: Seq<char>)
    requires
        all_digits(s),
    ensures
        dec_val(s) >= 0,
    decreases s.len(),
{
    if s.len() > 0 {
        assert(forall|i: int| 0 <= i < s.drop_last().len() ==> s.drop_last()[i] == s[i]);
        lemma_dec_val_nonneg(s.drop_last());
    }
}

/// The value of a digit string is at least the value of any of its
/// prefixes.
proof fn lemma_dec_val_prefix_le(s: Seq<char>, j: int)
    requires
        all_digits(s),
        0 <= j <= s.len(),
    ensures
        dec_val(s.take(j)) <= dec_val(s),
    decreases s.len() - j,
{
    if j < s.len() {
        assert(s.take(j + 1).drop_last() =~= s.take(j));
        assert(s.take(j + 1).last() == s[j]);
        assert(forall|i: int| 0 <= i < j ==> s.take(j)[i] == s[i]);
        lemma_dec_val_nonneg(s.take(j));
        assert(dec_val(s.take(j + 1)) == dec_val(s.take(j)) * 10 + digit_val(s[j]));
        lemma_dec_val_prefix_le(s, j + 1);
    } else {
        assert(s.take(j) =~= s);
    }
}

/// Parses a capacity setting the way the standard decimal parse of an
/// unsigned machine word does: an optional leading plus sign, then one or
/// more digits; rejected when the digits are empty, on any other
/// character, and when the value does not fit the word.
#[verifier::loop_isolation(false)]
pub fn parse_capacity(s: &str) -> (r: Option<usize>)
    ensures
        r matches Some(v) ==> digits_of(s@).len() > 0 && all_digits(digits_of(s@)) && v == dec_val(
            digits_of(s@),
        ),
        r is None ==> !(digits_of(s@).len() > 0 && all_digits(digits_of(s@)) && dec_val(
            digits_of(s@),
        ) <= usize::MAX),
{
    let n = s.unicode_len();
    let mut start: usize = 0;
    if n > 0 && s.get_char(0) == '+' {
        start = 1;
    }
    if start >= n {
        return None;
    }
    let ghost d = digits_of(s@);
    proof {
        assert(d.len() == n - start);
        assert(forall|j: int| 0 <= j < d.len() ==> d[j] == s@[j + start]);
    }
    let mut acc: usize = 0;
    let mut i: usize = start;
    while i < n
        invariant
            start <= i <= n,
            all_digits(d.take(i - start)),
            acc == dec_val(d.take(i - start)),
        decreases n - i,
    {
        let c = s.get_char(i);
        let u = c as u32;
        if u < 48 || u > 57 {
            proof {
                assert(d[i - start] == s@[i as int]);
                assert(!is_digit(d[i - start]));
            }
            return None;
        }
        let dv = (u - 48) as usize;
        proof {
            assert(d.take(i - start + 1).drop_last() =~= d.take(i - start));
            assert(d.take(i - start + 1).last() == d[i - start]);
            assert(dec_val(d.take(i - start + 1)) == acc * 10 + dv);
        }
        if acc > (usize::MAX - dv) / 10 {
            proof {
                assert(acc * 10 + dv > usize::MAX) by (nonlinear_arith)
                    requires
                        acc > (usize::MAX - dv) / 10,
                        0 <= dv <= 9,
                        dv <= usize::MAX,
                ;
                if all_digits(d) {
                    lemma_dec_val_prefix_le(d, i - start + 1);
                }
            }
            return None;
        }
        proof {
            assert(acc * 10 + dv <= usize::MAX) by (nonlinear_arith)
                requires
                    acc <= (usize::MAX - dv) / 10,
                    0 <= dv,
                    dv <= usize::MAX,
            ;
        }
        acc = acc * 10 + dv;
        i = i + 1;
    }
    proof {
        assert(d.take(n - start) =~= d);
    }
    Some(acc)
}

/// The capacity a raw setting resolves to: its parsed value when it is
/// present and parses to a machine word, the default of 10000 otherwise.
pub open spec fn capacity_of(raw: Option<Seq<char>>) -> int {
    match raw {
        Some(t) => {
            let d = digits_of(t);
            if d.len() > 0 && all_digits(d) && dec_val(d) <= usize::MAX {
                dec_val(d)
            } else {
                10000
            }
        },
        None => 10000,
    }
}

/// The server's configuration: listen port, data directory and retention
/// capacity.  It is assembled from the process environment by the caller.
pub struct ServerConfig {
    pub port: String,
    pub data_dir: String,
    pub max_reqs: usize,
}

impl ServerConfig {
    /// Resolves the configuration from the raw optional settings, applying
    /// the defaults: port 43999, data directory "./catchhook-data", and a
    /// capacity of 10000 when that setting is absent or does not parse.
    pub fn resolve(port: Option<String>, data_dir: Option<String>, max_reqs: Option<String>) -> (r:
        ServerConfig)
        ensures
            r.port@ == (match port {
                Some(p) => p@,
                None => "43999"@,
            }),
            r.data_dir@ == (match data_dir {
                Some(d) => d@,
                None => "./catchhook-data"@,
            }),
            r.max_reqs == capacity_of(
                match max_reqs {
                    Some(m) => Some(m@),
                    None => None,
                },
            ),
    {
        let port_val = match port {
            Some(p) => p,
            None => "43999".to_owned(),
        };
        let data_dir_val = match data_dir {
            Some(d) => d,
            None => "./catchhook-data".to_owned(),
        };
        let max_reqs_val: usize = match max_reqs {
            Some(m) => match parse_capacity(m.as_str()) {
                Some(v) => v,
                None => 10000,
            },
            None => 10000,
        };
        ServerConfig { port: port_val, data_dir: data_dir_val, max_reqs: max_reqs_val }
    }
}

} // verus!
