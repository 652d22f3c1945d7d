//! Server settings, computed from the values of the environment variables
//! that configure them.
use vstd::prelude::*;
use vstd::string::{StrSliceExecFns, StringExecFns};

verus! {

/// Port of the plain HTTP listener when none is configured.
pub const DEFAULT_PORT: u16 = 3030;

/// Port of the TLS listener when none is configured.
pub const DEFAULT_TLS_PORT: u16 = 3443;

/// Where and how the server listens.
#[derive(Debug)]
pub struct Config {
    pub host: String,
    pub port: u16,
    pub tls_enabled: bool,
    pub tls_port: u16,
    pub cert_path: Option<String>,
    pub key_path: Option<String>,
}

/// The lowercase form of `s`, as `str::to_lowercase` computes it.
pub uninterp spec fn lower_of(s: Seq<char>) -> Seq<char>;

/// Relies on `str::to_lowercase`: the result depends on the characters of
/// `s` alone.
#[verifier::external_body]
fn lowercase(s: &str) -> (r: String)
    ensures
        r@ == lower_of(s@),
{
    s.to_lowercase()
}

pub open spec fn is_digit(c: char) -> bool {
    '0' <= c <= '9'
}

/// The value of a string of decimal digits.
pub open spec fn digits_value(s: Seq<char>) -> nat
    decreases s.len(),
{
    if s.len() == 0 {
        0
    } else {
        digits_value(s.drop_last()) * 10 + (s.last() as nat - '0' as nat) as nat
    }
}

/// The digits of a port number: the text without a leading `+`.
pub open spec fn port_digits(s: Seq<char>) -> Seq<char> {
    if s.len() > 0 && s[0] == '+' { s.drop_first() } else { s }
}

/// A port number in decimal, as `u16`'s `FromStr` reads it: an optional
/// `+`, then one or more digits, of value at most 65535.
pub open spec fn port_of(s: Seq<char>) -> Option<u16> {
    let d = port_digits(s);
    if d.len() > 0 && (forall|i: int| 0 <= i < d.len() ==> is_digit(#[trigger] d[i]))
        && digits_value(d) <= u16::MAX {
        Some(digits_value(d) as u16)
    } else {
        None
    }
}

/// Reads a port number; `None` if `s` is not one.
pub fn parse_port(s: &str) -> (r: Option<u16>)
    ensures
        r == port_of(s@),
{
    let n = s.unicode_len();
    let mut start: usize = 0;
    if n > 0 && s.get_char(0) == '+' {
        start = 1;
    }
    let ghost d = port_digits(s@);
    assert(d =~= s@.subrange(start as int, n as int));
    if start == n {
        return None;
    }
    let mut acc: u64 = 0;
    let mut over = false;
    let mut i: usize = start;
    while i < n
        invariant
            start <= i <= n,
            n == s@.len(),
            d == s@.subrange(start as int, n as int),
            d == port_digits(s@),
            forall|j: int| start <= j < i ==> is_digit(#[trigger] s@[j]),
            !over ==> acc == digits_value(s@.subrange(start as int, i as int)) && acc <= u16::MAX,
            over ==> digits_value(s@.subrange(start as int, i as int)) > u16::MAX,
        decreases n - i,
    {
        let c = s.get_char(i);
        if !('0' <= c && c <= '9') {
            proof {
                assert(d[i - start] == c);
                assert(!is_digit(d[i - start]));
                assert(port_of(s@) is None);
            }
            return None;
        }
        let ghost prefix = s@.subrange(start as int, i as int);
        let ghost next = s@.subrange(start as int, i + 1);
        assert(next.drop_last() =~= prefix);
        assert(next.last() == c);
        if !over {
            acc = acc * 10 + (c as u64 - '0' as u64);
            if acc > u16::MAX as u64 {
                over = true;
            }
        } else {
            assert(digits_value(next) >= digits_value(prefix)) by (nonlinear_arith)
                requires
                    digits_value(next) == digits_value(prefix) * 10 + (c as nat - '0' as nat) as nat,
            ;
        }
        i += 1;
    }
    assert(s@.subrange(start as int, n as int) == d);
    assert forall|j: int| 0 <= j < d.len() implies is_digit(#[trigger] d[j]) by {
        assert(d[j] == s@[start + j]);
    }
    if over {
        None
    } else {
        Some(acc as u16)
    }
}

/// Whether a lowercased flag value reads `true`.
pub fn flag_is_true(lowered: &String) -> (r: bool)
    ensures
        r == (lowered@ == seq!['t', 'r', 'u', 'e']),
{
    let t = String::from_str("true");
    proof {
        reveal_strlit("true");
        assert(t@ =~= seq!['t', 'r', 'u', 'e']);
    }
    *lowered == t
}

/// The value of `s`, or `default` when it is absent.
fn text_or(s: Option<String>, default: &str) -> (r: String)
    ensures
        r@ == (match s {
            Some(t) => t@,
            None => default@,
        }),
{
    match s {
        Some(t) => t,
        None => String::from_str(default),
    }
}

/// The port in `s`, or `default` when it is absent or not a port number.
fn port_or(s: &Option<String>, default: u16) -> (r: u16)
    ensures
        r == (match s {
            Some(t) => match port_of(t@) {
                Some(p) => p,
                None => default,
            },
            None => default,
        }),
{
    match s {
        Some(t) => match parse_port(t.as_str()) {
            Some(p) => p,
            None => default,
        },
        None => default,
    }
}

impl Config {
    /// The settings given the values of the variables `HOST`, `PORT`,
    /// `TLS_ENABLED`, `TLS_PORT`, `CERT_PATH` and `KEY_PATH` (`None` when
    /// unset). The host defaults to `0.0.0.0`, the ports to 3030 and 3443
    /// when unset or not a port number; TLS is enabled when `TLS_ENABLED`
    /// reads `true` in any case.
    pub fn from_vars(
        host: Option<String>,
        port: Option<String>,
        tls_enabled: Option<String>,
        tls_port: Option<String>,
        cert_path: Option<String>,
        key_path: Option<String>,
    ) -> (r: Config)
        ensures
            r.host@ == (match host {
                Some(h) => h@,
                None => seq!['0', '.', '0', '.', '0', '.', '0'],
            }),
            r.port == (match port {
                Some(t) => match port_of(t@) {
                    Some(p) => p,
                    None => DEFAULT_PORT,
                },
                None => DEFAULT_PORT,
            }),
            r.tls_port == (match tls_port {
                Some(t) => match port_of(t@) {
                    Some(p) => p,
                    None => DEFAULT_TLS_PORT,
                },
                None => DEFAULT_TLS_PORT,
            }),
            r.tls_enabled == (match tls_enabled {
                Some(v) => lower_of(v@) == seq!['t', 'r', 'u', 'e'],
                None => false,
            }),
            r.cert_path == cert_path,
            r.key_path == key_path,
    {
        proof {
            reveal_strlit("0.0.0.0");
            assert("0.0.0.0"@ =~= seq!['0', '.', '0', '.', '0', '.', '0']);
        }
        let p = port_or(&port, DEFAULT_PORT);
        let tp = port_or(&tls_port, DEFAULT_TLS_PORT);
        let tls = match tls_enabled {
            Some(v) => flag_is_true(&lowercase(v.as_str())),
            None => false,
        };
        Config {
            host: text_or(host, "0.0.0.0"),
            port: p,
            tls_enabled: tls,
            tls_port: tp,
            cert_path,
            key_path,
        }
    }
}

} // verus!
