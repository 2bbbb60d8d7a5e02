//! The IP range matcher: does an address belong to a vendor-published
//! network range?
//!
//! The vendor publishes a headerless CSV table whose first column is a CIDR
//! network and whose remaining columns are free-form metadata; those columns,
//! rejoined with commas, form the descriptor returned to callers. The scan
//! is linear and the first containing range wins. Corrupt rows are a hard
//! error, never skipped: a skipped row could hide a real membership.
//!
//! The canonical data source here is the remote one: the caller fetches the
//! table afresh for every lookup and hands the outcome in, so no staleness
//! can arise; a fetch failure is that lookup's error. The same parsed form
//! also serves a local snapshot read once at startup, where a parse failure
//! must abort startup instead.

use vstd::arithmetic::power2::{lemma2_to64, lemma2_to64_rest, lemma_pow2_adds, pow2};
use vstd::bits::{lemma_u128_shr_is_div, lemma_u32_shr_is_div};
use vstd::prelude::*;
use vstd::string::StringExecFns;
use crate::ip::{parse_ip, spec_parse_ip, IpAddress};
use crate::strutil::{
    chars_vec, dec_val, is_dec_digit, lemma_split_nonempty, spec_split, split_chars,
    string_of_chars,
};

verus! {

/// A network range: an address and a prefix length, denoting the addresses
/// that share the first `prefix` bits.
#[derive(Clone, Copy, Debug, PartialEq, Eq, Structural)]
pub struct IpNetwork {
    pub addr: IpAddress,
    pub prefix: u8,
}

/// The prefix length fits the address family.
pub open spec fn wf_network(n: IpNetwork) -> bool {
    match n.addr {
        IpAddress::V4(_) => n.prefix <= 32,
        IpAddress::V6(_) => n.prefix <= 128,
    }
}

/// The network contains the address: same family, and the two agree on the
/// first `prefix` bits.
pub open spec fn spec_net_contains(n: IpNetwork, ip: IpAddress) -> bool {
    match (n.addr, ip) {
        (IpAddress::V4(a), IpAddress::V4(b)) => a as nat / pow2((32 - n.prefix) as nat)
            == b as nat / pow2((32 - n.prefix) as nat),
        (IpAddress::V6(a), IpAddress::V6(b)) => a as nat / pow2((128 - n.prefix) as nat)
            == b as nat / pow2((128 - n.prefix) as nat),
        _ => false,
    }
}

impl IpNetwork {
    /// Whether this network contains `ip`.
    pub fn contains(&self, ip: &IpAddress) -> (r: bool)
        requires
            wf_network(*self),
        ensures
            r == spec_net_contains(*self, *ip),
    {
        match (&self.addr, ip) {
            (IpAddress::V4(a), IpAddress::V4(b)) => {
                if self.prefix == 0 {
                    proof {
                        lemma2_to64();
                        assert(*a as nat / pow2(32) == 0);
                        assert(*b as nat / pow2(32) == 0);
                    }
                    true
                } else {
                    let s: u32 = 32 - (self.prefix as u32);
                    proof {
                        lemma_u32_shr_is_div(*a, s);
                        lemma_u32_shr_is_div(*b, s);
                    }
                    (*a >> s) == (*b >> s)
                }
            },
            (IpAddress::V6(a), IpAddress::V6(b)) => {
                if self.prefix == 0 {
                    proof {
                        lemma2_to64();
                        lemma2_to64_rest();
                        lemma_pow2_adds(64, 64);
                        assert(pow2(64) * pow2(64) == 0x100000000000000000000000000000000int)
                            by (nonlinear_arith)
                            requires
                                pow2(64) == 0x10000000000000000,
                        ;
                        assert(pow2(128) == 0x100000000000000000000000000000000int);
                        let av = *a as nat;
                        let bv = *b as nat;
                        let p = pow2(128);
                        assert(av / p == 0) by (nonlinear_arith)
                            requires
                                av < p,
                                p > 0,
                        ;
                        assert(bv / p == 0) by (nonlinear_arith)
                            requires
                                bv < p,
                                p > 0,
                        ;
                    }
                    true
                } else {
                    let s: u128 = 128 - (self.prefix as u128);
                    proof {
                        lemma_u128_shr_is_div(*a, s);
                        lemma_u128_shr_is_div(*b, s);
                    }
                    (*a >> s) == (*b >> s)
                }
            },
            _ => false,
        }
    }
}

/// A textual prefix length: one to three digits, no leading zero, value at
/// most `bits`.
pub open spec fn valid_prefix_text(g: Seq<char>, bits: int) -> bool {
    &&& 1 <= g.len() <= 3
    &&& forall|i: int| 0 <= i < g.len() ==> is_dec_digit(#[trigger] g[i])
    &&& (g.len() > 1 ==> g[0] != '0')
    &&& dec_val(g) <= bits
}

/// The network denoted by `s`: an address, a slash, and a prefix length no
/// larger than the address family's width.
pub open spec fn spec_parse_network(s: Seq<char>) -> Option<IpNetwork> {
    let gs = spec_split(s, '/');
    if gs.len() == 2 {
        match spec_parse_ip(gs[0]) {
            Some(ip) => {
                let bits: int = match ip {
                    IpAddress::V4(_) => 32,
                    IpAddress::V6(_) => 128,
                };
                if valid_prefix_text(gs[1], bits) {
                    Some(IpNetwork { addr: ip, prefix: dec_val(gs[1]) as u8 })
                } else {
                    None
                }
            },
            None => None,
        }
    } else {
        None
    }
}

/// Reads the digits of a prefix length; `Some` exactly when valid for
/// `bits`.
fn parse_prefix(g: &Vec<char>, bits: u32) -> (r: Option<u8>)
    requires
        bits == 32 || bits == 128,
    ensures
        r is Some <==> valid_prefix_text(g@, bits as int),
        r matches Some(v) ==> v == dec_val(g@),
{
    if g.len() < 1 || g.len() > 3 {
        return None;
    }
    if g.len() > 1 && g[0] == '0' {
        return None;
    }
    let mut val: u32 = 0;
    let mut i: usize = 0;
    while i < g.len()
        invariant
            i <= g@.len() <= 3,
            forall|j: int| 0 <= j < i ==> is_dec_digit(#[trigger] g@[j]),
            val == dec_val(g@.subrange(0, i as int)),
            val < 1000,
        decreases g@.len() - i,
    {
        let c = g[i];
        if c < '0' || c > '9' {
            return None;
        }
        proof {
            crate::ip::lemma_dec_val_bound(g@.subrange(0, i as int));
            reveal_with_fuel(crate::ip::pow10, 4);
            assert(crate::ip::pow10(3) == 1000);
            assert(g@.subrange(0, i + 1).drop_last() =~= g@.subrange(0, i as int));
        }
        val = val * 10 + (c as u32 - 48);
        i += 1;
    }
    proof {
        assert(g@.subrange(0, g@.len() as int) =~= g@);
    }
    if val > bits {
        return None;
    }
    Some(val as u8)
}

/// Reads a network in CIDR form.
pub fn parse_network(s: &Vec<char>) -> (r: Option<IpNetwork>)
    ensures
        r == spec_parse_network(s@),
        r matches Some(n) ==> wf_network(n),
{
    let gs = split_chars(s, '/');
    if gs.len() != 2 {
        return None;
    }
    let ip = match parse_ip(&gs[0]) {
        Some(ip) => ip,
        None => { return None; },
    };
    let bits: u32 = match ip {
        IpAddress::V4(_) => 32,
        IpAddress::V6(_) => 128,
    };
    match parse_prefix(&gs[1], bits) {
        Some(p) => Some(IpNetwork { addr: ip, prefix: p }),
        None => None,
    }
}

/// The groups `gs`, joined by `sep`.
pub open spec fn spec_join(gs: Seq<Seq<char>>, sep: char) -> Seq<char>
    decreases gs.len(),
{
    if gs.len() == 0 {
        Seq::empty()
    } else if gs.len() == 1 {
        gs[0]
    } else {
        spec_join(gs.drop_last(), sep) + seq![sep] + gs.last()
    }
}

/// Joins `fields[from..]` with commas: the descriptor formed from a row's
/// metadata columns.
fn join_fields(fields: &Vec<Vec<char>>, from: usize) -> (r: Vec<char>)
    requires
        from <= fields@.len(),
    ensures
        r@ == spec_join(
            fields@.subrange(from as int, fields@.len() as int).map_values(|g: Vec<char>| g@),
            ',',
        ),
{
    let ghost target = fields@.subrange(from as int, fields@.len() as int).map_values(
        |g: Vec<char>| g@,
    );
    let mut r: Vec<char> = Vec::new();
    let mut i: usize = from;
    proof {
        assert(target.subrange(0, 0) =~= Seq::<Seq<char>>::empty());
    }
    while i < fields.len()
        invariant
            from <= i <= fields@.len(),
            target == fields@.subrange(from as int, fields@.len() as int).map_values(
                |g: Vec<char>| g@,
            ),
            r@ == spec_join(target.subrange(0, i - from), ','),
        decreases fields@.len() - i,
    {
        if i > from {
            r.push(',');
        }
        let mut j: usize = 0;
        let ghost r0 = r@;
        while j < fields[i].len()
            invariant
                0 <= i < fields@.len(),
                j <= fields@[i as int]@.len(),
                r@ == r0 + fields@[i as int]@.subrange(0, j as int),
            decreases fields@[i as int]@.len() - j,
        {
            r.push(fields[i][j]);
            proof {
                assert(r0 + fields@[i as int]@.subrange(0, j as int).push(
                    fields@[i as int]@[j as int],
                ) =~= r0 + fields@[i as int]@.subrange(0, j + 1));
            }
            j += 1;
        }
        proof {
            let pre = target.subrange(0, i - from);
            let post = target.subrange(0, i - from + 1);
            assert(post.drop_last() =~= pre);
            assert(post.last() == fields@[i as int]@);
            assert(fields@[i as int]@.subrange(0, fields@[i as int]@.len() as int) =~= fields@[
                i as int]@);
            if i == from {
                assert(r@ =~= spec_join(post, ','));
            } else {
                assert(r@ =~= spec_join(pre, ',') + seq![','] + fields@[i as int]@);
                assert(r@ =~= spec_join(post, ','));
            }
        }
        i += 1;
    }
    proof {
        assert(target.subrange(0, fields@.len() - from) =~= target);
    }
    r
}

/// The row with one trailing carriage return removed, as left before a
/// newline by a table in CRLF form.
pub open spec fn strip_cr(r: Seq<char>) -> Seq<char> {
    if r.len() > 0 && r.last() == '\r' {
        r.drop_last()
    } else {
        r
    }
}

/// One parsed table row: the network of the first column and the remaining
/// columns rejoined with commas as the descriptor.
pub open spec fn spec_parse_row(row: Seq<char>) -> Option<(IpNetwork, Seq<char>)> {
    let fields = spec_split(row, ',');
    match spec_parse_network(fields[0]) {
        Some(net) => Some((net, spec_join(fields.drop_first(), ','))),
        None => None,
    }
}

/// The parsed table: rows in order, blank rows skipped, `None` as soon as
/// any row is malformed.
pub open spec fn spec_parse_rows(rows: Seq<Seq<char>>) -> Option<Seq<(IpNetwork, Seq<char>)>>
    decreases rows.len(),
{
    if rows.len() == 0 {
        Some(Seq::empty())
    } else {
        match spec_parse_rows(rows.drop_last()) {
            None => None,
            Some(tbl) => {
                let row = strip_cr(rows.last());
                if row.len() == 0 {
                    Some(tbl)
                } else {
                    match spec_parse_row(row) {
                        Some(entry) => Some(tbl.push(entry)),
                        None => None,
                    }
                }
            },
        }
    }
}

pub proof fn lemma_parse_rows_prefix_none(rows: Seq<Seq<char>>, i: int)
    requires
        0 <= i <= rows.len(),
        spec_parse_rows(rows.subrange(0, i)) is None,
    ensures
        spec_parse_rows(rows.subrange(0, rows.len() as int)) is None,
    decreases rows.len() - i,
{
    if i < rows.len() {
        assert(rows.subrange(0, i + 1).drop_last() =~= rows.subrange(0, i));
        lemma_parse_rows_prefix_none(rows, i + 1);
    }
}

/// One range of the table: a network and the descriptor returned when it
/// matches.
pub struct NetworkRange {
    pub network: IpNetwork,
    pub descriptor: String,
}

impl View for NetworkRange {
    type V = (IpNetwork, Seq<char>);

    open spec fn view(&self) -> (IpNetwork, Seq<char>) {
        (self.network, self.descriptor@)
    }
}

/// Every network of the table fits its address family.
pub open spec fn wf_table(tv: Seq<(IpNetwork, Seq<char>)>) -> bool {
    forall|i: int| 0 <= i < tv.len() ==> wf_network((#[trigger] tv[i]).0)
}

/// An ordered table of network ranges; the first containing range wins.
pub struct RangeTable {
    pub ranges: Vec<NetworkRange>,
}

impl View for RangeTable {
    type V = Seq<(IpNetwork, Seq<char>)>;

    open spec fn view(&self) -> Seq<(IpNetwork, Seq<char>)> {
        self.ranges@.map_values(|r: NetworkRange| r@)
    }
}

/// How range data can be unusable: not text at all, or holding a row whose
/// first column is not a network.
#[derive(Clone, Copy, Debug, PartialEq, Eq, Structural)]
pub enum RangeError {
    NotText,
    BadRow,
}

/// The descriptor of the first range of `tv` that contains `ip`.
pub open spec fn spec_find(tv: Seq<(IpNetwork, Seq<char>)>, ip: IpAddress) -> Option<Seq<char>>
    decreases tv.len(),
{
    if tv.len() == 0 {
        None
    } else if spec_net_contains(tv[0].0, ip) {
        Some(tv[0].1)
    } else {
        spec_find(tv.drop_first(), ip)
    }
}

/// The first containing range wins, deterministically: whenever position
/// `i` contains `ip` and no earlier position does, the lookup answers with
/// that range's descriptor, whatever overlapping ranges follow; and with no
/// containing range at all, the lookup answers that the address is absent.
pub proof fn lemma_find_first_match(tv: Seq<(IpNetwork, Seq<char>)>, ip: IpAddress, i: int)
    requires
        0 <= i < tv.len(),
        spec_net_contains(tv[i].0, ip),
        forall|j: int| 0 <= j < i ==> !spec_net_contains((#[trigger] tv[j]).0, ip),
    ensures
        spec_find(tv, ip) == Some(tv[i].1),
    decreases i,
{
    if i > 0 {
        assert(forall|j: int|
            0 <= j < i - 1 ==> #[trigger] tv.drop_first()[j] == tv[j + 1]);
        assert(tv.drop_first()[i - 1] == tv[i]);
        lemma_find_first_match(tv.drop_first(), ip, i - 1);
    }
}

/// With no containing range, the lookup answers that the address is absent.
pub proof fn lemma_find_no_match(tv: Seq<(IpNetwork, Seq<char>)>, ip: IpAddress)
    requires
        forall|j: int| 0 <= j < tv.len() ==> !spec_net_contains((#[trigger] tv[j]).0, ip),
    ensures
        spec_find(tv, ip) is None,
    decreases tv.len(),
{
    if tv.len() > 0 {
        assert(forall|j: int|
            0 <= j < tv.len() - 1 ==> #[trigger] tv.drop_first()[j] == tv[j + 1]);
        lemma_find_no_match(tv.drop_first(), ip);
    }
}

impl RangeTable {
    /// Reads the whole table from its CSV text. Any malformed row is a hard
    /// error: corrupted trust data is never skipped.
    pub fn parse(text: &str) -> (r: Result<RangeTable, RangeError>)
        ensures
            match r {
                Ok(t) => spec_parse_rows(spec_split(text@, '\n')) == Some(t@) && wf_table(t@),
                Err(e) => spec_parse_rows(spec_split(text@, '\n')) is None && e
                    == RangeError::BadRow,
            },
    {
        let tv = chars_vec(text);
        let rows = split_chars(&tv, '\n');
        let ghost rowsv = spec_split(text@, '\n');
        let mut out: Vec<NetworkRange> = Vec::new();
        let mut i: usize = 0;
        proof {
            assert(rowsv.subrange(0, 0) =~= Seq::<Seq<char>>::empty());
            assert(out@.map_values(|r: NetworkRange| r@) =~= Seq::<(
                IpNetwork,
                Seq<char>,
            )>::empty());
        }
        while i < rows.len()
            invariant
                i <= rows@.len(),
                rowsv == spec_split(text@, '\n'),
                rowsv.len() == rows@.len(),
                forall|j: int| 0 <= j < rows@.len() ==> #[trigger] rows@[j]@ == rowsv[j],
                spec_parse_rows(rowsv.subrange(0, i as int)) == Some(
                    out@.map_values(|r: NetworkRange| r@),
                ),
                wf_table(out@.map_values(|r: NetworkRange| r@)),
            decreases rows@.len() - i,
        {
            let ghost tbl = out@.map_values(|r: NetworkRange| r@);
            proof {
                assert(rowsv.subrange(0, i + 1).drop_last() =~= rowsv.subrange(0, i as int));
                assert(rowsv.subrange(0, i + 1).last() == rowsv[i as int]);
            }
            // drop one trailing carriage return, as a CRLF table leaves
            let mut row = rows[i].clone();
            if row.len() > 0 && row[row.len() - 1] == '\r' {
                let _ = row.pop();
                proof {
                    assert(row@ =~= strip_cr(rowsv[i as int]));
                }
            }
            proof {
                assert(row@ == strip_cr(rowsv[i as int]));
            }
            if row.len() == 0 {
                i += 1;
                continue;
            }
            let fields = split_chars(&row, ',');
            proof {
                lemma_split_nonempty(row@, ',');
            }
            let net = match parse_network(&fields[0]) {
                Some(n) => n,
                None => {
                    proof {
                        lemma_parse_rows_prefix_none(rowsv, i + 1);
                        assert(rowsv.subrange(0, rowsv.len() as int) =~= rowsv);
                    }
                    return Err(RangeError::BadRow);
                },
            };
            let desc = join_fields(&fields, 1);
            proof {
                assert(fields@.subrange(1, fields@.len() as int).map_values(|g: Vec<char>| g@)
                    =~= spec_split(row@, ',').drop_first());
            }
            let descriptor = string_of_chars(&desc);
            out.push(NetworkRange { network: net, descriptor });
            proof {
                assert(out@.map_values(|r: NetworkRange| r@) =~= tbl.push(
                    (net, spec_join(spec_split(row@, ',').drop_first(), ',')),
                ));
            }
            i += 1;
        }
        proof {
            assert(rowsv.subrange(0, rowsv.len() as int) =~= rowsv);
        }
        Ok(RangeTable { ranges: out })
    }

    /// The descriptor of the first range containing `ip`, or `None`: not
    /// being in the table is an ordinary outcome, not an error.
    pub fn find(&self, ip: &IpAddress) -> (r: Option<String>)
        requires
            wf_table(self@),
        ensures
            match r {
                Some(s) => spec_find(self@, *ip) == Some(s@),
                None => spec_find(self@, *ip) is None,
            },
    {
        let ghost tv = self@;
        let mut i: usize = 0;
        proof {
            assert(tv.subrange(0, tv.len() as int) =~= tv);
        }
        while i < self.ranges.len()
            invariant
                i <= self.ranges@.len(),
                tv == self@,
                tv.len() == self.ranges@.len(),
                wf_table(tv),
                forall|j: int| 0 <= j < tv.len() ==> #[trigger] tv[j] == self.ranges@[j]@,
                spec_find(tv, *ip) == spec_find(tv.subrange(i as int, tv.len() as int), *ip),
            decreases self.ranges@.len() - i,
        {
            proof {
                let tail = tv.subrange(i as int, tv.len() as int);
                assert(tail[0] == tv[i as int]);
                assert(tail.drop_first() =~= tv.subrange(i + 1, tv.len() as int));
            }
            if self.ranges[i].network.contains(ip) {
                return Some(self.ranges[i].descriptor.clone());
            }
            i += 1;
        }
        proof {
            assert(tv.subrange(tv.len() as int, tv.len() as int) =~= Seq::<(
                IpNetwork,
                Seq<char>,
            )>::empty());
        }
        None
    }
}

/// What the fetch of the vendor table can report instead of a body: a
/// response with a non-success status, or no response at all.
#[derive(Clone, Debug, PartialEq, Eq)]
pub enum FetchFailure {
    Status(u16),
    Transport(String),
}

/// Why a lookup failed: the vendor endpoint could not be fetched, or its
/// data was unusable.
#[derive(Clone, Debug, PartialEq, Eq)]
pub enum LookupError {
    Fetch(FetchFailure),
    Data(RangeError),
}

/// The outcome of one lookup against the vendor table's bytes.
pub open spec fn spec_lookup_csv(bytes: Seq<u8>, ip: IpAddress) -> Result<
    Option<Seq<char>>,
    RangeError,
> {
    if !vstd::utf8::valid_utf8(bytes) {
        Err(RangeError::NotText)
    } else {
        match spec_parse_rows(spec_split(vstd::utf8::decode_utf8(bytes), '\n')) {
            None => Err(RangeError::BadRow),
            Some(tv) => Ok(spec_find(tv, ip)),
        }
    }
}

/// Looks `ip` up in the vendor's range table, given the outcome of this
/// call's own fetch of it. A failed fetch is this lookup's error, kept
/// apart from unusable data; a fresh fetch is made for every call, and no
/// cache can go stale.
pub fn get_private_relay_range(fetch: Result<Vec<u8>, FetchFailure>, ip: &IpAddress) -> (r:
    Result<Option<String>, LookupError>)
    ensures
        fetch matches Err(f) ==> r == Err::<Option<String>, LookupError>(LookupError::Fetch(f)),
        fetch matches Ok(bytes) ==> match r {
            Ok(None) => spec_lookup_csv(bytes@, *ip) == Ok::<Option<Seq<char>>, RangeError>(None),
            Ok(Some(s)) => spec_lookup_csv(bytes@, *ip) == Ok::<Option<Seq<char>>, RangeError>(
                Some(s@),
            ),
            Err(LookupError::Data(e)) => spec_lookup_csv(bytes@, *ip) == Err::<
                Option<Seq<char>>,
                RangeError,
            >(e),
            Err(LookupError::Fetch(_)) => false,
        },
{
    let bytes = match fetch {
        Ok(b) => b,
        Err(f) => { return Err(LookupError::Fetch(f)); },
    };
    let ghost bv = bytes@;
    let text = match crate::strutil::utf8_string(bytes) {
        Some(t) => t,
        None => { return Err(LookupError::Data(RangeError::NotText)); },
    };
    proof {
        broadcast use vstd::utf8::encode_utf8_valid_utf8;
        broadcast use vstd::utf8::encode_utf8_decode_utf8;

        assert(vstd::utf8::valid_utf8(bv));
        assert(vstd::utf8::decode_utf8(bv) == text@);
    }
    let table = match RangeTable::parse(text.as_str()) {
        Ok(t) => t,
        Err(e) => { return Err(LookupError::Data(e)); },
    };
    Ok(table.find(ip))
}

/// The line reported for one lookup outcome: the address and the matched
/// descriptor, or the address and that it is not in the table.
pub open spec fn spec_relay_message(ip: IpAddress, found: Option<Seq<char>>) -> Seq<char> {
    match found {
        None => crate::ip::spec_ip_text(ip) + " is not iCloud Private Relay"@,
        Some(line) => crate::ip::spec_ip_text(ip) + ": "@ + line,
    }
}

/// Renders one lookup outcome as the line handed back to the client.
pub fn relay_message(ip: &IpAddress, found: &Option<String>) -> (r: String)
    ensures
        match found {
            None => r@ == spec_relay_message(*ip, None),
            Some(line) => r@ == spec_relay_message(*ip, Some(line@)),
        },
{
    let mut s = crate::ip::ip_text(ip);
    match found {
        None => {
            s.append(" is not iCloud Private Relay");
        },
        Some(line) => {
            s.append(": ");
            s.append(line.as_str());
        },
    }
    s
}

} // verus!
