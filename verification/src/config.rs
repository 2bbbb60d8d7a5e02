//! Process configuration as plain values: the listening port (which also
//! names the deployment slot) and the public hostname. The surrounding
//! process reads the environment and hands the raw text in.

use vstd::prelude::*;
use crate::strutil::{dec_val, is_dec_digit};

verus! {

/// The process configuration.
pub struct Config {
    pub port: u16,
    pub website_domain: String,
}

/// The value of a digit string when it fits a port: one or more decimal
/// digits (leading zeros allowed) naming a value of at most 65535.
pub open spec fn spec_port_digits(t: Seq<char>) -> Option<u16> {
    if t.len() >= 1 && (forall|i: int| 0 <= i < t.len() ==> is_dec_digit(#[trigger] t[i]))
        && dec_val(t) <= 65535 {
        Some(dec_val(t) as u16)
    } else {
        None
    }
}

/// The unsigned value denoted by `s` when it fits a port: an optional plus
/// sign, then the digits.
pub open spec fn spec_port_text(s: Seq<char>) -> Option<u16> {
    spec_port_digits(
        if s.len() > 0 && s[0] == '+' {
            s.drop_first()
        } else {
            s
        },
    )
}

pub proof fn lemma_dec_val_prefix(s: Seq<char>, i: int)
    requires
        0 <= i <= s.len(),
        forall|j: int| 0 <= j < s.len() ==> is_dec_digit(#[trigger] s[j]),
    ensures
        dec_val(s.subrange(0, i)) <= dec_val(s),
    decreases s.len() - i,
{
    if i < s.len() {
        lemma_dec_val_prefix(s, i + 1);
        let pre = s.subrange(0, i);
        let post = s.subrange(0, i + 1);
        assert(post.drop_last() =~= pre);
        crate::ip::lemma_dec_val_bound(pre);
        assert(dec_val(post) == dec_val(pre) * 10 + (post.last() as int - '0' as int));
        assert(dec_val(pre) * 10 >= dec_val(pre)) by (nonlinear_arith)
            requires
                dec_val(pre) >= 0,
        ;
    } else {
        assert(s.subrange(0, i) =~= s);
    }
}

/// Reads a port number from text, with 8080 as the fallback for anything
/// that is not one.
pub fn port_or_default(s: &str) -> (r: u16)
    ensures
        r as int == match spec_port_text(s@) {
            Some(p) => p as int,
            None => 8080,
        },
{
    let sv = crate::strutil::chars_vec(s);
    let mut start: usize = 0;
    if sv.len() > 0 && sv[0] == '+' {
        start = 1;
    }
    let ghost t = if s@.len() > 0 && s@[0] == '+' {
        s@.drop_first()
    } else {
        s@
    };
    proof {
        assert(t =~= sv@.subrange(start as int, sv@.len() as int));
    }
    if sv.len() == start {
        proof {
            assert(spec_port_text(s@) == spec_port_digits(t));
        }
        return 8080;
    }
    let mut val: u32 = 0;
    let mut i: usize = start;
    proof {
        assert(t.subrange(0, 0) =~= Seq::<char>::empty());
    }
    while i < sv.len()
        invariant
            start <= i <= sv@.len(),
            sv@ == s@,
            t == sv@.subrange(start as int, sv@.len() as int),
            t == (if s@.len() > 0 && s@[0] == '+' {
                s@.drop_first()
            } else {
                s@
            }),
            forall|j: int| 0 <= j < i - start ==> is_dec_digit(#[trigger] t[j]),
            val == dec_val(t.subrange(0, i - start)),
            val <= 65535,
        decreases sv@.len() - i,
    {
        let c = sv[i];
        proof {
            assert(t[i - start] == sv@[i as int]);
            assert(t.subrange(0, i - start + 1).drop_last() =~= t.subrange(0, i - start));
        }
        if c < '0' || c > '9' {
            proof {
                assert(!is_dec_digit(t[i - start]));
                assert(spec_port_text(s@) == spec_port_digits(t));
            }
            return 8080;
        }
        let next = val * 10 + (c as u32 - 48);
        if next > 65535 {
            proof {
                // either some later character is not a digit, or the value
                // already exceeds a port from this prefix alone
                assert(dec_val(t.subrange(0, i - start + 1)) == val * 10 + (c as int
                    - '0' as int));
                if forall|j: int| 0 <= j < t.len() ==> is_dec_digit(#[trigger] t[j]) {
                    lemma_dec_val_prefix(t, i - start + 1);
                    assert(dec_val(t) > 65535);
                }
                assert(spec_port_text(s@) == spec_port_digits(t));
            }
            return 8080;
        }
        val = next;
        i += 1;
    }
    proof {
        assert(t.subrange(0, t.len() as int) =~= t);
        assert(spec_port_text(s@) == spec_port_digits(t));
    }
    val as u16
}

/// The deployment slot a port stands for.
pub fn slot_name(port: u16) -> (r: &'static str)
    ensures
        port == 8080 ==> r@ == "blue"@,
        port == 8081 ==> r@ == "green"@,
        port != 8080 && port != 8081 ==> r@ == "unknown"@,
{
    if port == 8080 {
        "blue"
    } else if port == 8081 {
        "green"
    } else {
        "unknown"
    }
}

} // verus!
