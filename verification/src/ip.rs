//! IP addresses as plain values: a 32-bit number for IPv4, a 128-bit number
//! for IPv6, with the textual grammar read and written here.
//!
//! The grammar accepted is the common canonical one: dotted decimal octets
//! without leading zeros for IPv4; colon-separated hexadecimal groups for
//! IPv6, with at most one `::` standing for a run of zero groups. The
//! mixed-notation IPv6 form with an embedded dotted quad is not accepted.

use vstd::prelude::*;
use crate::strutil::{
    append_decimal, append_hex, dec_val, hex_val, is_dec_digit, is_hex_digit, push_char,
    spec_decimal, spec_hex, spec_split, split_chars,
};

verus! {

/// An IP address, either family, held as its numeric value.
#[derive(Clone, Copy, Debug, PartialEq, Eq, Structural)]
pub enum IpAddress {
    V4(u32),
    V6(u128),
}

/// True of the addresses that only ever resolve to the local host:
/// IPv4 `127.0.0.0/8` and IPv6 `::1`.
pub open spec fn spec_is_loopback(ip: IpAddress) -> bool {
    match ip {
        IpAddress::V4(a) => a / 0x1000000 == 127,
        IpAddress::V6(a) => a == 1,
    }
}

impl IpAddress {
    /// Whether this address is a loopback address.
    pub fn is_loopback(&self) -> (r: bool)
        ensures
            r == spec_is_loopback(*self),
    {
        match self {
            IpAddress::V4(a) => *a / 0x1000000 == 127,
            IpAddress::V6(a) => *a == 1,
        }
    }
}

/// 10 to the power `n`.
pub open spec fn pow10(n: nat) -> int
    decreases n,
{
    if n == 0 {
        1
    } else {
        10 * pow10((n - 1) as nat)
    }
}

/// 16 to the power `n`.
pub open spec fn pow16(n: nat) -> int
    decreases n,
{
    if n == 0 {
        1
    } else {
        16 * pow16((n - 1) as nat)
    }
}

/// 65536 to the power `n`: the weight of one 16-bit group.
pub open spec fn gpow(n: nat) -> int
    decreases n,
{
    if n == 0 {
        1
    } else {
        0x10000 * gpow((n - 1) as nat)
    }
}

pub proof fn lemma_dec_val_bound(g: Seq<char>)
    requires
        forall|i: int| 0 <= i < g.len() ==> is_dec_digit(#[trigger] g[i]),
    ensures
        0 <= dec_val(g) < pow10(g.len()),
    decreases g.len(),
{
    if g.len() > 0 {
        lemma_dec_val_bound(g.drop_last());
    }
}

pub proof fn lemma_hex_val_bound(g: Seq<char>)
    requires
        forall|i: int| 0 <= i < g.len() ==> is_hex_digit(#[trigger] g[i]),
    ensures
        0 <= hex_val(g) < pow16(g.len()),
    decreases g.len(),
{
    if g.len() > 0 {
        lemma_hex_val_bound(g.drop_last());
    }
}

/// A textual decimal octet: one to three digits, no leading zero, value at
/// most 255.
pub open spec fn valid_dec_octet(g: Seq<char>) -> bool {
    &&& 1 <= g.len() <= 3
    &&& forall|i: int| 0 <= i < g.len() ==> is_dec_digit(#[trigger] g[i])
    &&& (g.len() > 1 ==> g[0] != '0')
    &&& dec_val(g) <= 255
}

/// The IPv4 address denoted by `s`, when `s` is four valid octets joined by
/// dots.
pub open spec fn spec_parse_ipv4(s: Seq<char>) -> Option<u32> {
    let gs = spec_split(s, '.');
    if gs.len() == 4 && valid_dec_octet(gs[0]) && valid_dec_octet(gs[1]) && valid_dec_octet(gs[2])
        && valid_dec_octet(gs[3]) {
        Some(
            (dec_val(gs[0]) * 0x1000000 + dec_val(gs[1]) * 0x10000 + dec_val(gs[2]) * 0x100
                + dec_val(gs[3])) as u32,
        )
    } else {
        None
    }
}

/// Reads one decimal octet; `Some` exactly when the group is a valid octet.
fn parse_dec_octet(g: &Vec<char>) -> (r: Option<u32>)
    ensures
        r is Some <==> valid_dec_octet(g@),
        r matches Some(v) ==> v == dec_val(g@),
{
    if g.len() < 1 || g.len() > 3 {
        return None;
    }
    if g.len() > 1 && g[0] == '0' {
        return None;
    }
    let mut val: u32 = 0;
    let mut i: usize = 0;
    while i < g.len()
        invariant
            i <= g@.len() <= 3,
            forall|j: int| 0 <= j < i ==> is_dec_digit(#[trigger] g@[j]),
            val == dec_val(g@.subrange(0, i as int)),
            val < 1000,
        decreases g@.len() - i,
    {
        let c = g[i];
        if c < '0' || c > '9' {
            return None;
        }
        proof {
            lemma_dec_val_bound(g@.subrange(0, i as int));
            reveal_with_fuel(pow10, 4);
            assert(pow10(3) == 1000);
            assert(g@.subrange(0, i + 1).drop_last() =~= g@.subrange(0, i as int));
        }
        val = val * 10 + (c as u32 - 48);
        i += 1;
    }
    proof {
        assert(g@.subrange(0, g@.len() as int) =~= g@);
    }
    if val > 255 {
        return None;
    }
    Some(val)
}

/// A textual 16-bit IPv6 group: one to four hexadecimal digits.
pub open spec fn valid_hex_group(g: Seq<char>) -> bool {
    &&& 1 <= g.len() <= 4
    &&& forall|i: int| 0 <= i < g.len() ==> is_hex_digit(#[trigger] g[i])
}

/// All groups of `gs` are valid hexadecimal groups.
pub open spec fn all_valid_groups(gs: Seq<Seq<char>>) -> bool {
    forall|i: int| 0 <= i < gs.len() ==> valid_hex_group(#[trigger] gs[i])
}

/// The value of a run of 16-bit groups, most significant first.
pub open spec fn groups_val(gs: Seq<Seq<char>>) -> int
    decreases gs.len(),
{
    if gs.len() == 0 {
        0
    } else {
        groups_val(gs.drop_last()) * 0x10000 + hex_val(gs.last())
    }
}

/// The index of the first empty group, or `gs.len()` when none is empty.
pub open spec fn first_empty(gs: Seq<Seq<char>>) -> int
    decreases gs.len(),
{
    if gs.len() == 0 {
        0
    } else if gs[0].len() == 0 {
        0
    } else {
        1 + first_empty(gs.drop_first())
    }
}

pub proof fn lemma_gpow_adds(a: nat, b: nat)
    ensures
        gpow(a + b) == gpow(a) * gpow(b),
    decreases a,
{
    if a == 0 {
    } else {
        lemma_gpow_adds((a - 1) as nat, b);
        assert(gpow(((a - 1) + b) as nat) == gpow((a - 1) as nat) * gpow(b));
        assert((a + b - 1) as nat == ((a - 1) + b) as nat);
        assert(gpow(a + b) == 0x10000 * (gpow((a - 1) as nat) * gpow(b)));
        assert(0x10000 * (gpow((a - 1) as nat) * gpow(b)) == (0x10000 * gpow((a - 1) as nat))
            * gpow(b)) by (nonlinear_arith);
    }
}

pub proof fn lemma_gpow_pos(n: nat)
    ensures
        gpow(n) >= 1,
    decreases n,
{
    if n > 0 {
        lemma_gpow_pos((n - 1) as nat);
    }
}

pub proof fn lemma_groups_val_bound(gs: Seq<Seq<char>>)
    requires
        all_valid_groups(gs),
    ensures
        0 <= groups_val(gs) < gpow(gs.len()),
    decreases gs.len(),
{
    if gs.len() > 0 {
        assert(all_valid_groups(gs.drop_last()));
        lemma_groups_val_bound(gs.drop_last());
        assert(valid_hex_group(gs.last()));
        lemma_hex_val_bound(gs.last());
        reveal_with_fuel(pow16, 5);
        assert(hex_val(gs.last()) < 0x10000);
        let p = groups_val(gs.drop_last());
        let q = gpow((gs.len() - 1) as nat);
        assert(p < q ==> p * 0x10000 + 0xffff < q * 0x10000) by (nonlinear_arith);
        assert(groups_val(gs) < gpow(gs.len()));
    }
}

/// The value of an IPv6 address whose leading groups are `head`, whose
/// trailing groups are `tail`, and whose remaining middle groups are zero.
pub open spec fn spec_ipv6_val(head: Seq<Seq<char>>, tail: Seq<Seq<char>>) -> int {
    groups_val(head) * gpow((8 - head.len()) as nat) + groups_val(tail)
}

pub proof fn lemma_ipv6_val_bound(head: Seq<Seq<char>>, tail: Seq<Seq<char>>)
    requires
        all_valid_groups(head),
        all_valid_groups(tail),
        head.len() <= 8,
        tail.len() <= 8 - head.len(),
    ensures
        0 <= spec_ipv6_val(head, tail) < gpow(8),
{
    let h = head.len();
    let t = tail.len();
    lemma_groups_val_bound(head);
    lemma_groups_val_bound(tail);
    lemma_gpow_adds(h, (8 - h) as nat);
    lemma_gpow_pos((8 - h) as nat);
    lemma_gpow_pos(h);
    if t < (8 - h) as nat {
        lemma_gpow_adds(t, ((8 - h) - t) as nat);
        lemma_gpow_pos((((8 - h) - t)) as nat);
        assert(gpow(t) * 1 <= gpow(t) * gpow((((8 - h) - t)) as nat)) by (nonlinear_arith)
            requires
                gpow((((8 - h) - t)) as nat) >= 1,
                gpow(t) >= 0,
        ;
        lemma_groups_val_bound(tail);
    }
    assert(gpow(t) <= gpow((8 - h) as nat));
    let gv = groups_val(head);
    let gp = gpow((8 - h) as nat);
    let gh = gpow(h);
    assert(gv <= gh - 1 && gp >= 1 ==> gv * gp <= (gh - 1) * gp) by (nonlinear_arith);
    assert((gh - 1) * gp == gh * gp - gp) by (nonlinear_arith);
    assert(gv * gp >= 0) by (nonlinear_arith)
        requires
            gv >= 0,
            gp >= 0,
    ;
}

/// The IPv6 address denoted by `s`: eight hexadecimal groups joined by
/// colons, or fewer groups with one `::` standing for the missing zero run.
pub open spec fn spec_parse_ipv6(s: Seq<char>) -> Option<u128> {
    let gs = spec_split(s, ':');
    let n = gs.len() as int;
    if n == 8 && all_valid_groups(gs) {
        Some(groups_val(gs) as u128)
    } else if n == 3 && gs[0].len() == 0 && gs[1].len() == 0 && gs[2].len() == 0 {
        Some(0)
    } else if 3 <= n <= 9 && gs[0].len() == 0 && gs[1].len() == 0 && all_valid_groups(
        gs.subrange(2, n),
    ) {
        Some(groups_val(gs.subrange(2, n)) as u128)
    } else if 3 <= n <= 9 && gs[n - 1].len() == 0 && gs[n - 2].len() == 0 && all_valid_groups(
        gs.subrange(0, n - 2),
    ) {
        Some(spec_ipv6_val(gs.subrange(0, n - 2), Seq::empty()) as u128)
    } else if 3 <= n <= 8 && 1 <= first_empty(gs) <= n - 2 && gs[first_empty(gs)].len() == 0
        && all_valid_groups(gs.subrange(0, first_empty(gs))) && all_valid_groups(
        gs.subrange(first_empty(gs) + 1, n),
    ) {
        Some(spec_ipv6_val(gs.subrange(0, first_empty(gs)), gs.subrange(first_empty(gs) + 1, n))
            as u128)
    } else {
        None
    }
}

/// Reads one hexadecimal group; `Some` exactly when the group is valid.
fn parse_hex_group(g: &Vec<char>) -> (r: Option<u32>)
    ensures
        r is Some <==> valid_hex_group(g@),
        r matches Some(v) ==> v == hex_val(g@),
{
    if g.len() < 1 || g.len() > 4 {
        return None;
    }
    let mut val: u32 = 0;
    let mut i: usize = 0;
    while i < g.len()
        invariant
            i <= g@.len() <= 4,
            forall|j: int| 0 <= j < i ==> is_hex_digit(#[trigger] g@[j]),
            val == hex_val(g@.subrange(0, i as int)),
            val < 0x10000,
        decreases g@.len() - i,
    {
        let c = g[i];
        let d: u32 = if c >= '0' && c <= '9' {
            c as u32 - 48
        } else if c >= 'a' && c <= 'f' {
            c as u32 - 87
        } else if c >= 'A' && c <= 'F' {
            c as u32 - 55
        } else {
            return None;
        };
        proof {
            lemma_hex_val_bound(g@.subrange(0, i as int));
            reveal_with_fuel(pow16, 5);
            assert(pow16(4) == 0x10000);
            assert(g@.subrange(0, i + 1).drop_last() =~= g@.subrange(0, i as int));
        }
        val = val * 16 + d;
        i += 1;
    }
    proof {
        assert(g@.subrange(0, g@.len() as int) =~= g@);
    }
    Some(val)
}

/// Reads the groups `gs[start..end]` and combines them into one value, most
/// significant group first; `Some` exactly when every group is valid.
fn groups_value(gs: &Vec<Vec<char>>, start: usize, end: usize) -> (r: Option<u128>)
    requires
        start <= end <= gs@.len(),
        end - start <= 8,
    ensures
        r is Some <==> all_valid_groups(gs@.subrange(start as int, end as int).map_values(
            |g: Vec<char>| g@,
        )),
        r matches Some(v) ==> v == groups_val(
            gs@.subrange(start as int, end as int).map_values(|g: Vec<char>| g@),
        ),
{
    let ghost target = gs@.subrange(start as int, end as int).map_values(|g: Vec<char>| g@);
    let mut acc: u128 = 0;
    let mut i: usize = start;
    proof {
        assert(target.subrange(0, 0) =~= Seq::<Seq<char>>::empty());
    }
    while i < end
        invariant
            start <= i <= end <= gs@.len(),
            end - start <= 8,
            target == gs@.subrange(start as int, end as int).map_values(|g: Vec<char>| g@),
            all_valid_groups(target.subrange(0, i - start)),
            acc == groups_val(target.subrange(0, i - start)),
        decreases end - i,
    {
        let v = match parse_hex_group(&gs[i]) {
            Some(v) => v,
            None => {
                proof {
                    assert(target[i - start] == gs@[i as int]@);
                }
                return None;
            },
        };
        proof {
            assert(target[i - start] == gs@[i as int]@);
            let pre = target.subrange(0, i - start);
            let post = target.subrange(0, i - start + 1);
            assert(post.drop_last() =~= pre);
            assert(post.last() == target[i - start]);
            assert(all_valid_groups(post));
            lemma_groups_val_bound(post);
            lemma_groups_val_bound(pre);
            assert(gpow(post.len()) <= gpow(8)) by {
                if post.len() < 8 {
                    lemma_gpow_adds(post.len(), (8 - post.len()) as nat);
                    lemma_gpow_pos((8 - post.len()) as nat);
                    lemma_gpow_pos(post.len());
                    assert(gpow(post.len()) * 1 <= gpow(post.len()) * gpow(
                        (8 - post.len()) as nat,
                    )) by (nonlinear_arith)
                        requires
                            gpow((8 - post.len()) as nat) >= 1,
                            gpow(post.len()) >= 0,
                    ;
                }
            }
            reveal_with_fuel(gpow, 9);
            assert(gpow(8) == 0x100000000000000000000000000000000);
        }
        acc = acc * 0x10000 + (v as u128);
        i += 1;
    }
    proof {
        assert(target.subrange(0, end - start) =~= target);
    }
    Some(acc)
}

/// 65536 to the power `n`, as a value.
fn gpow_u128(n: usize) -> (r: u128)
    requires
        n <= 7,
    ensures
        r == gpow(n as nat),
{
    let mut r: u128 = 1;
    let mut i: usize = 0;
    while i < n
        invariant
            i <= n <= 7,
            r == gpow(i as nat),
        decreases n - i,
    {
        proof {
            reveal_with_fuel(gpow, 9);
            lemma_gpow_pos(i as nat);
            assert(gpow((i + 1) as nat) == 0x10000 * gpow(i as nat));
            assert(gpow(i as nat) <= gpow(6)) by {
                if i < 6 {
                    lemma_gpow_adds(i as nat, (6 - i) as nat);
                    lemma_gpow_pos((6 - i) as nat);
                    lemma_gpow_pos(i as nat);
                    assert(gpow(i as nat) * 1 <= gpow(i as nat) * gpow((6 - i) as nat))
                        by (nonlinear_arith)
                        requires
                            gpow((6 - i) as nat) >= 1,
                            gpow(i as nat) >= 0,
                    ;
                }
            }
        }
        r = r * 0x10000;
        i += 1;
    }
    r
}

/// Reads an IPv6 address in colon-separated hexadecimal form.
pub fn parse_ipv6(s: &Vec<char>) -> (r: Option<u128>)
    ensures
        r == spec_parse_ipv6(s@),
{
    let gs = split_chars(s, ':');
    let ghost gss = spec_split(s@, ':');
    let ghost gsv = Seq::new(gs@.len() as nat, |j: int| gs@[j]@);
    proof {
        assert(forall|j: int| 0 <= j < gs@.len() ==> #[trigger] gsv[j] == gss[j]);
        assert(gsv =~~= gss);
    }
    let n = gs.len();
    if n < 3 {
        // the full form needs eight groups, the compressed forms at least
        // three
        return None;
    }
    // locate the first empty group
    proof {
        lemma_first_empty_nonneg(gss);
    }
    let mut k: usize = 0;
    while k < n && gs[k].len() > 0
        invariant
            k <= n,
            n == gs@.len(),
            gss.len() == gs@.len(),
            3 <= n,
            gsv == gss,
            forall|j: int| 0 <= j < gs@.len() ==> #[trigger] gs@[j]@ == gss[j],
            forall|j: int| 0 <= j < k ==> #[trigger] gss[j].len() > 0,
            first_empty(gss) >= k,
        decreases n - k,
    {
        proof {
            lemma_first_empty_step(gss, k as int);
        }
        k += 1;
    }
    proof {
        if k < n {
            lemma_first_empty_at(gss, k as int);
        } else {
            lemma_first_empty_none(gss);
        }
    }
    if k == n {
        // no empty group: must be the full eight-group form
        if n != 8 {
            return None;
        }
        let v = match groups_value(&gs, 0, 8) {
            Some(v) => v,
            None => {
                proof {
                    assert(gs@.subrange(0, 8).map_values(|g: Vec<char>| g@) =~~= gss);
                }
                return None;
            },
        };
        proof {
            assert(gs@.subrange(0, 8).map_values(|g: Vec<char>| g@) =~~= gss);
            lemma_groups_val_bound(gss);
        }
        return Some(v);
    }
    if n > 9 {
        return None;
    }
    if n < 3 {
        return None;
    }
    if k == 0 {
        proof {
            assert(!valid_hex_group(gss[0]));
            assert(gss.subrange(0, n - 2)[0] == gss[0]);
        }
        // leading "::": the second group must be empty too
        if gs[1].len() != 0 {
            return None;
        }
        if n == 3 && gs[2].len() == 0 {
            return Some(0);
        }
        let v = match groups_value(&gs, 2, n) {
            Some(v) => v,
            None => {
                proof {
                    assert(gs@.subrange(2, n as int).map_values(|g: Vec<char>| g@) =~~= gss
                        .subrange(2, n as int));
                }
                return None;
            },
        };
        proof {
            assert(gs@.subrange(2, n as int).map_values(|g: Vec<char>| g@) =~~= gss.subrange(
                2,
                n as int,
            ));
            lemma_groups_val_bound(gss.subrange(2, n as int));
        }
        return Some(v);
    }
    if k == n - 2 && gs[n - 1].len() == 0 {
        // trailing "::"
        let hv = match groups_value(&gs, 0, n - 2) {
            Some(v) => v,
            None => {
                proof {
                    assert(gs@.subrange(0, n - 2).map_values(|g: Vec<char>| g@) =~~= gss.subrange(
                        0,
                        n - 2,
                    ));
                }
                return None;
            },
        };
        let ghost head = gss.subrange(0, n - 2);
        proof {
            assert(gs@.subrange(0, n - 2).map_values(|g: Vec<char>| g@) =~~= head);
            lemma_ipv6_val_bound(head, Seq::empty());
            reveal_with_fuel(gpow, 9);
            assert(gpow(8) == 0x100000000000000000000000000000000);
        }
        let gp = gpow_u128(8 - (n - 2));
        return Some(hv * gp);
    }
    proof {
        assert(!valid_hex_group(gss[k as int]));
        assert(gss[0].len() > 0);
    }
    if k > n - 2 {
        // the first empty group is the last one, with a nonempty one before
        // it: "x:" has no reading
        proof {
            assert(gss[n - 2].len() > 0);
        }
        return None;
    }
    proof {
        if k < n - 2 {
            assert(gss.subrange(0, n - 2)[k as int] == gss[k as int]);
            assert(!all_valid_groups(gss.subrange(0, n - 2)));
        }
    }
    if n > 8 {
        return None;
    }
    // interior "a::b"
    let hv = match groups_value(&gs, 0, k) {
        Some(v) => v,
        None => {
            proof {
                assert(gs@.subrange(0, k as int).map_values(|g: Vec<char>| g@) =~~= gss.subrange(
                    0,
                    k as int,
                ));
                if k == n - 2 {
                } else {
                    assert(forall|j: int|
                        0 <= j < k ==> #[trigger] gss.subrange(0, k as int)[j] == gss.subrange(
                            0,
                            n - 2,
                        )[j]);
                    assert(all_valid_groups(gss.subrange(0, n - 2)) ==> all_valid_groups(
                        gss.subrange(0, k as int),
                    ));
                }
            }
            return None;
        },
    };
    let tv = match groups_value(&gs, k + 1, n) {
        Some(v) => v,
        None => {
            proof {
                assert(gs@.subrange(0, k as int).map_values(|g: Vec<char>| g@) =~~= gss.subrange(
                    0,
                    k as int,
                ));
                assert(gs@.subrange(k + 1, n as int).map_values(|g: Vec<char>| g@) =~~= gss
                    .subrange(k + 1, n as int));
            }
            return None;
        },
    };
    let ghost head = gss.subrange(0, k as int);
    let ghost tail = gss.subrange(k + 1, n as int);
    proof {
        assert(gs@.subrange(0, k as int).map_values(|g: Vec<char>| g@) =~~= head);
        assert(gs@.subrange(k + 1, n as int).map_values(|g: Vec<char>| g@) =~~= tail);
        lemma_ipv6_val_bound(head, tail);
        lemma_groups_val_bound(tail);
        lemma_ipv6_val_bound(head, Seq::empty());
        reveal_with_fuel(gpow, 9);
        assert(gpow(8) == 0x100000000000000000000000000000000);
    }
    let gp = gpow_u128(8 - k);
    Some(hv * gp + tv)
}

pub proof fn lemma_first_empty_step(gs: Seq<Seq<char>>, k: int)
    requires
        0 <= k < gs.len(),
        gs[k].len() > 0,
        first_empty(gs) >= k,
    ensures
        first_empty(gs) >= k + 1,
    decreases k,
{
    if k == 0 {
        assert(first_empty(gs) == 1 + first_empty(gs.drop_first()));
        lemma_first_empty_nonneg(gs.drop_first());
    } else {
        assert(first_empty(gs) == 1 + first_empty(gs.drop_first()));
        assert(gs.drop_first()[k - 1] == gs[k]);
        lemma_first_empty_step(gs.drop_first(), k - 1);
    }
}

pub proof fn lemma_first_empty_nonneg(gs: Seq<Seq<char>>)
    ensures
        first_empty(gs) >= 0,
    decreases gs.len(),
{
    if gs.len() > 0 && gs[0].len() > 0 {
        lemma_first_empty_nonneg(gs.drop_first());
    }
}

pub proof fn lemma_first_empty_at(gs: Seq<Seq<char>>, k: int)
    requires
        0 <= k < gs.len(),
        gs[k].len() == 0,
        forall|j: int| 0 <= j < k ==> #[trigger] gs[j].len() > 0,
    ensures
        first_empty(gs) == k,
    decreases k,
{
    if k > 0 {
        assert(gs.drop_first()[k - 1] == gs[k]);
        assert(forall|j: int|
            0 <= j < k - 1 ==> #[trigger] gs.drop_first()[j].len() == gs[j + 1].len());
        lemma_first_empty_at(gs.drop_first(), k - 1);
    }
}

pub proof fn lemma_first_empty_none(gs: Seq<Seq<char>>)
    requires
        forall|j: int| 0 <= j < gs.len() ==> #[trigger] gs[j].len() > 0,
    ensures
        first_empty(gs) == gs.len(),
    decreases gs.len(),
{
    if gs.len() > 0 {
        assert(forall|j: int|
            0 <= j < gs.drop_first().len() ==> #[trigger] gs.drop_first()[j].len() == gs[j
                + 1].len());
        lemma_first_empty_none(gs.drop_first());
    }
}

/// The address denoted by `s`, trying the IPv4 form first, then IPv6.
pub open spec fn spec_parse_ip(s: Seq<char>) -> Option<IpAddress> {
    if spec_parse_ipv4(s) is Some {
        Some(IpAddress::V4(spec_parse_ipv4(s)->Some_0))
    } else if spec_parse_ipv6(s) is Some {
        Some(IpAddress::V6(spec_parse_ipv6(s)->Some_0))
    } else {
        None
    }
}

/// Reads an IP address of either family from text.
pub fn parse_ip(s: &Vec<char>) -> (r: Option<IpAddress>)
    ensures
        r == spec_parse_ip(s@),
{
    match parse_ipv4(s) {
        Some(a) => Some(IpAddress::V4(a)),
        None => match parse_ipv6(s) {
            Some(a) => Some(IpAddress::V6(a)),
            None => None,
        },
    }
}

/// Reads an IPv4 address in dotted decimal form.
pub fn parse_ipv4(s: &Vec<char>) -> (r: Option<u32>)
    ensures
        r == spec_parse_ipv4(s@),
{
    let gs = split_chars(s, '.');
    if gs.len() != 4 {
        return None;
    }
    let a = match parse_dec_octet(&gs[0]) {
        Some(v) => v,
        None => { return None; },
    };
    let b = match parse_dec_octet(&gs[1]) {
        Some(v) => v,
        None => { return None; },
    };
    let c = match parse_dec_octet(&gs[2]) {
        Some(v) => v,
        None => { return None; },
    };
    let d = match parse_dec_octet(&gs[3]) {
        Some(v) => v,
        None => { return None; },
    };
    Some(a * 0x1000000 + b * 0x10000 + c * 0x100 + d)
}

/// The dotted decimal text of an IPv4 address value.
pub open spec fn spec_ipv4_text(a: u32) -> Seq<char> {
    spec_decimal((a / 0x1000000) as nat) + seq!['.'] + spec_decimal(((a / 0x10000) % 0x100) as nat)
        + seq!['.'] + spec_decimal(((a / 0x100) % 0x100) as nat) + seq!['.'] + spec_decimal(
        (a % 0x100) as nat,
    )
}

/// The eight 16-bit groups of an IPv6 address value, most significant first.
pub open spec fn spec_groups_of(a: u128) -> Seq<int> {
    Seq::new(8, |i: int| (a as int / gpow((7 - i) as nat)) % 0x10000)
}

/// The length of the run of zero groups starting at `i`.
pub open spec fn run_len(gs: Seq<int>, i: int) -> int
    decreases gs.len() - i,
{
    if i < 0 || i >= gs.len() || gs[i] != 0 {
        0
    } else {
        1 + run_len(gs, i + 1)
    }
}

/// The start and length of the longest run of zero groups at or after `i`,
/// the leftmost on a tie; length 0 when there is none.
pub open spec fn best_run_from(gs: Seq<int>, i: int) -> (int, int)
    decreases gs.len() - i,
{
    if i >= gs.len() {
        (i, 0)
    } else {
        let cur = run_len(gs, i);
        let rest = best_run_from(gs, i + 1);
        if cur >= rest.1 {
            (i, cur)
        } else {
            rest
        }
    }
}

/// The hexadecimal texts of the groups `gs`, joined by colons.
pub open spec fn spec_join_groups(gs: Seq<int>) -> Seq<char>
    decreases gs.len(),
{
    if gs.len() == 0 {
        Seq::empty()
    } else if gs.len() == 1 {
        spec_hex(gs[0] as nat)
    } else {
        spec_join_groups(gs.drop_last()) + seq![':'] + spec_hex(gs.last() as nat)
    }
}

/// The canonical text of an IPv6 address value: lower-case hexadecimal
/// groups without leading zeros, with the longest run of at least two zero
/// groups (the leftmost on a tie) compressed to `::`.
pub open spec fn spec_ipv6_text(a: u128) -> Seq<char> {
    let gs = spec_groups_of(a);
    let best = best_run_from(gs, 0);
    if best.1 >= 2 {
        spec_join_groups(gs.subrange(0, best.0)) + seq![':'] + seq![':'] + spec_join_groups(
            gs.subrange(best.0 + best.1, 8),
        )
    } else {
        spec_join_groups(gs)
    }
}

/// The text of an address of either family.
pub open spec fn spec_ip_text(ip: IpAddress) -> Seq<char> {
    match ip {
        IpAddress::V4(a) => spec_ipv4_text(a),
        IpAddress::V6(a) => spec_ipv6_text(a),
    }
}

/// Appends the hexadecimal texts of `gs[from..to]`, joined by colons.
fn append_joined_groups(s: &mut String, gs: &Vec<u32>, from: usize, to: usize)
    requires
        from <= to <= gs@.len(),
    ensures
        final(s)@ == old(s)@ + spec_join_groups(
            gs@.subrange(from as int, to as int).map_values(|g: u32| g as int),
        ),
{
    let ghost target = gs@.subrange(from as int, to as int).map_values(|g: u32| g as int);
    let mut i: usize = from;
    proof {
        assert(target.subrange(0, 0) =~= Seq::<int>::empty());
    }
    while i < to
        invariant
            from <= i <= to <= gs@.len(),
            target == gs@.subrange(from as int, to as int).map_values(|g: u32| g as int),
            s@ == old(s)@ + spec_join_groups(target.subrange(0, i - from)),
        decreases to - i,
    {
        if i > from {
            push_char(s, ':');
        }
        append_hex(s, gs[i]);
        proof {
            let pre = target.subrange(0, i - from);
            let post = target.subrange(0, i - from + 1);
            assert(post.drop_last() =~= pre);
            assert(post.last() == gs@[i as int] as int);
            if i == from {
                assert(post.len() == 1);
                assert(old(s)@ + spec_hex(gs@[i as int] as nat) =~= old(s)@ + spec_join_groups(
                    post,
                ));
            } else {
                assert(old(s)@ + spec_join_groups(pre) + seq![':'] + spec_hex(
                    gs@[i as int] as nat,
                ) =~= old(s)@ + spec_join_groups(post));
            }
        }
        i += 1;
    }
    proof {
        assert(target.subrange(0, to - from) =~= target);
    }
}

/// The canonical text of an address of either family.
pub fn ip_text(ip: &IpAddress) -> (r: String)
    ensures
        r@ == spec_ip_text(*ip),
{
    match ip {
        IpAddress::V4(a) => {
            let a = *a;
            let mut s = String::new();
            append_decimal(&mut s, (a / 0x1000000) as u64);
            push_char(&mut s, '.');
            append_decimal(&mut s, ((a / 0x10000) % 0x100) as u64);
            push_char(&mut s, '.');
            append_decimal(&mut s, ((a / 0x100) % 0x100) as u64);
            push_char(&mut s, '.');
            append_decimal(&mut s, (a % 0x100) as u64);
            proof {
                assert(s@ =~= spec_ipv4_text(a));
            }
            s
        },
        IpAddress::V6(a) => {
            let a = *a;
            let ghost gspec = spec_groups_of(a);
            // the eight groups, most significant first
            let mut gs: Vec<u32> = Vec::new();
            let mut i: usize = 0;
            while i < 8
                invariant
                    i <= 8,
                    gs@.len() == i,
                    gspec.len() == 8,
                    gspec == spec_groups_of(a),
                    forall|j: int| 0 <= j < i ==> #[trigger] gs@[j] as int == gspec[j],
                decreases 8 - i,
            {
                let w = gpow_u128(7 - i);
                proof {
                    lemma_gpow_pos((7 - i) as nat);
                }
                let g: u32 = ((a / w) % 0x10000) as u32;
                gs.push(g);
                proof {
                    assert(gspec[i as int] == (a as int / gpow((7 - i) as nat)) % 0x10000);
                    assert(gs@[i as int] as int == gspec[i as int]);
                }
                i += 1;
            }
            // the longest run of zero groups, leftmost on a tie, scanning
            // from the right so each step extends the runs already known
            let mut bs: usize = 8;
            let mut bl: usize = 0;
            let mut next_run: usize = 0;
            let mut j: usize = 8;
            while j > 0
                invariant
                    j <= 8,
                    gs@.len() == 8,
                    gspec.len() == 8,
                    gspec == spec_groups_of(a),
                    forall|t: int| 0 <= t < 8 ==> #[trigger] gs@[t] as int == gspec[t],
                    next_run == run_len(gspec, j as int),
                    next_run <= 8 - j,
                    (bs as int, bl as int) == best_run_from(gspec, j as int),
                    bl <= 8 - j,
                    bs <= 8,
                    bs + bl <= 8,
                decreases j,
            {
                let i = j - 1;
                let cur: usize = if gs[i] == 0 {
                    next_run + 1
                } else {
                    0
                };
                proof {
                    assert(run_len(gspec, i as int) == if gspec[i as int] != 0 {
                        0int
                    } else {
                        1 + run_len(gspec, i + 1)
                    });
                }
                if cur >= bl {
                    bs = i;
                    bl = cur;
                }
                next_run = cur;
                j = i;
            }
            let mut s = String::new();
            if bl >= 2 {
                append_joined_groups(&mut s, &gs, 0, bs);
                push_char(&mut s, ':');
                push_char(&mut s, ':');
                append_joined_groups(&mut s, &gs, bs + bl, 8);
                proof {
                    assert(gs@.subrange(0, bs as int).map_values(|g: u32| g as int) =~= gspec
                        .subrange(0, bs as int));
                    assert(gs@.subrange(bs + bl, 8).map_values(|g: u32| g as int) =~= gspec
                        .subrange(bs + bl, 8));
                    assert(s@ =~= spec_ipv6_text(a));
                }
            } else {
                append_joined_groups(&mut s, &gs, 0, 8);
                proof {
                    assert(gs@.subrange(0, 8).map_values(|g: u32| g as int) =~= gspec);
                    assert(s@ =~= spec_ipv6_text(a));
                }
            }
            s
        },
    }
}

} // verus!
