//! The request logger: one structured line per attempt, with size-based
//! rotation.
//!
//! A log line is one JSON object holding the timestamp in seconds, the
//! masked credential, the operation name, and the status code. When the
//! log file has reached its size cap, it is rotated into a single backup
//! slot before the next line is appended; this module computes the line
//! and the rotation decision, and the caller performs the file writes.

use vstd::prelude::*;
use crate::cache::hex_digit_char;
use crate::cache::push_hex_digit;

verus! {

/// Size, in bytes, at which the log file is rotated into the backup slot.
pub const MAX_LOG_SIZE: u64 = 5 * 1024 * 1024;

/// Whether a log file of this size must be rotated before appending.
pub fn needs_rotation(size: u64) -> (r: bool)
    ensures
        r == (size >= MAX_LOG_SIZE),
{
    size >= MAX_LOG_SIZE
}

/// The decimal digits of `n`, as digit values, most significant first.
pub open spec fn dec_digits(n: nat) -> Seq<u8>
    decreases n,
{
    if n < 10 {
        seq![n as u8]
    } else {
        dec_digits(n / 10).push((n % 10) as u8)
    }
}

/// The decimal rendering of `n`.
pub open spec fn dec_of(n: nat) -> Seq<char> {
    dec_digits(n).map_values(|d: u8| hex_digit_char(d))
}

/// Renders `n` in decimal.
pub fn u64_to_dec(n: u64) -> (r: String)
    ensures
        r@ == dec_of(n as nat),
{
    let mut digits: Vec<u8> = Vec::new();
    if n < 10 {
        digits.push(n as u8);
        proof {
            assert(digits@ =~= dec_digits(n as nat).reverse());
        }
    } else {
        let mut m = n;
        while m > 0
            invariant
                m > 0 ==> dec_digits(n as nat) =~= dec_digits(m as nat) + digits@.reverse(),
                m == 0 ==> dec_digits(n as nat) =~= digits@.reverse(),
                forall|j: int| 0 <= j < digits@.len() ==> (#[trigger] digits@[j]) < 10,
            decreases m,
        {
            let d: u8 = (m % 10) as u8;
            let ghost old_digits = digits@;
            digits.push(d);
            proof {
                assert(digits@.reverse() =~= seq![d] + old_digits.reverse());
                if m >= 10 {
                    assert(dec_digits(m as nat) =~= dec_digits((m / 10) as nat).push(d));
                    assert(dec_digits((m / 10) as nat) + digits@.reverse()
                        =~= dec_digits((m / 10) as nat).push(d) + old_digits.reverse());
                } else {
                    assert(dec_digits(m as nat) =~= seq![d]);
                }
            }
            m = m / 10;
        }
    }
    let mut r = String::new();
    let mut i = digits.len();
    while i > 0
        invariant
            i <= digits@.len(),
            forall|j: int| 0 <= j < digits@.len() ==> (#[trigger] digits@[j]) < 10,
            dec_digits(n as nat) =~= digits@.reverse(),
            r@.len() == digits@.len() - i,
            forall|j: int| 0 <= j < r@.len()
                ==> (#[trigger] r@[j]) == hex_digit_char(digits@[digits@.len() - 1 - j]),
        decreases i,
    {
        i -= 1;
        push_hex_digit(&mut r, digits[i]);
    }
    proof {
        assert(r@ =~= dec_of(n as nat)) by {
            assert forall|j: int| 0 <= j < r@.len() implies r@[j] == dec_of(n as nat)[j] by {
                assert(dec_digits(n as nat)[j] == digits@[digits@.len() - 1 - j]);
            }
        }
    }
    r
}

/// How one character appears inside a JSON string: quotes, backslashes,
/// and the common control characters are escaped; everything else stands
/// as itself.
pub open spec fn escape_char(c: char) -> Seq<char> {
    if c == '"' {
        seq!['\\', '"']
    } else if c == '\\' {
        seq!['\\', '\\']
    } else if c == '\n' {
        seq!['\\', 'n']
    } else if c == '\r' {
        seq!['\\', 'r']
    } else if c == '\t' {
        seq!['\\', 't']
    } else {
        seq![c]
    }
}

/// A string as it appears inside JSON quotes.
pub open spec fn json_escaped(s: Seq<char>) -> Seq<char>
    decreases s.len(),
{
    if s.len() == 0 {
        Seq::empty()
    } else {
        escape_char(s[0]) + json_escaped(s.drop_first())
    }
}

proof fn lemma_json_escaped_snoc(s: Seq<char>, c: char)
    ensures
        json_escaped(s.push(c)) == json_escaped(s) + escape_char(c),
    decreases s.len(),
{
    let sp = s.push(c);
    if s.len() == 0 {
        assert(sp[0] == c);
        assert(sp.drop_first() =~= Seq::<char>::empty());
        assert(json_escaped(sp) == escape_char(c) + json_escaped(sp.drop_first()));
        assert(json_escaped(sp.drop_first()) =~= Seq::<char>::empty());
        assert(json_escaped(sp) =~= json_escaped(s) + escape_char(c));
    } else {
        assert(sp[0] == s[0]);
        assert(sp.drop_first() =~= s.drop_first().push(c));
        lemma_json_escaped_snoc(s.drop_first(), c);
        assert(json_escaped(sp) == escape_char(s[0]) + json_escaped(sp.drop_first()));
        assert(json_escaped(s) == escape_char(s[0]) + json_escaped(s.drop_first()));
        assert(json_escaped(sp) =~= json_escaped(s) + escape_char(c));
    }
}

/// Escapes a string for inclusion inside JSON quotes.
pub fn json_escape(s: &str) -> (r: String)
    ensures
        r@ == json_escaped(s@),
{
    let n = s.unicode_len();
    let mut r = String::new();
    let mut i: usize = 0;
    while i < n
        invariant
            i <= n,
            n == s@.len(),
            r@ == json_escaped(s@.take(i as int)),
        decreases n - i,
    {
        let c = s.get_char(i);
        proof {
            lemma_json_escaped_snoc(s@.take(i as int), c);
            assert(s@.take(i + 1int) =~= s@.take(i as int).push(c));
        }
        if c == '"' {
            r.append("\\\"");
            proof {
                reveal_strlit("\\\"");
                assert(r@ =~= json_escaped(s@.take(i + 1int)));
            }
        } else if c == '\\' {
            r.append("\\\\");
            proof {
                reveal_strlit("\\\\");
                assert(r@ =~= json_escaped(s@.take(i + 1int)));
            }
        } else if c == '\n' {
            r.append("\\n");
            proof {
                reveal_strlit("\\n");
                assert(r@ =~= json_escaped(s@.take(i + 1int)));
            }
        } else if c == '\r' {
            r.append("\\r");
            proof {
                reveal_strlit("\\r");
                assert(r@ =~= json_escaped(s@.take(i + 1int)));
            }
        } else if c == '\t' {
            r.append("\\t");
            proof {
                reveal_strlit("\\t");
                assert(r@ =~= json_escaped(s@.take(i + 1int)));
            }
        } else {
            let one = s.substring_char(i, i + 1);
            r.append(one);
            proof {
                assert(one@ =~= seq![c]);
                assert(r@ =~= json_escaped(s@.take(i + 1int)));
            }
        }
        i += 1;
    }
    proof {
        assert(s@.take(n as int) =~= s@);
    }
    r
}

/// What the caller must do for one enabled log call: rotate the file into
/// the backup slot first if `rotate` is set, then append `line` and a
/// newline.
#[derive(Debug, Clone, PartialEq)]
pub struct LogPlan {
    pub rotate: bool,
    pub line: String,
}

/// The JSON log line for one request: timestamp in seconds, masked
/// credential, operation name, and status code.
pub open spec fn log_line_of(ts: u64, key: Seq<char>, cmd: Seq<char>, status: u16) -> Seq<char> {
    "{\"ts\":"@ + dec_of(ts as nat)
        + ",\"key\":\""@ + json_escaped(key)
        + "\",\"cmd\":\""@ + json_escaped(cmd)
        + "\",\"status\":"@ + dec_of(status as nat)
        + "}"@
}

/// Builds the JSON log line for one request.
pub fn format_log_line(ts: u64, masked_key: &str, cmd: &str, status: u16) -> (r: String)
    ensures
        r@ == log_line_of(ts, masked_key@, cmd@, status),
{
    let mut r = String::from_str("{\"ts\":");
    let ts_dec = u64_to_dec(ts);
    r.append(ts_dec.as_str());
    r.append(",\"key\":\"");
    let key_esc = json_escape(masked_key);
    r.append(key_esc.as_str());
    r.append("\",\"cmd\":\"");
    let cmd_esc = json_escape(cmd);
    r.append(cmd_esc.as_str());
    r.append("\",\"status\":");
    let st_dec = u64_to_dec(status as u64);
    r.append(st_dec.as_str());
    r.append("}");
    proof {
        assert(r@ =~= log_line_of(ts, masked_key@, cmd@, status));
    }
    r
}

} // verus!
