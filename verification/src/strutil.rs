//! Small verified text utilities: building strings character by character,
//! decimal rendering, and conversion between `&str` and `Vec<char>`.

use vstd::prelude::*;
use vstd::string::StrSliceExecFns;

verus! {

/// Relies on std's `String::push`: appends exactly one character.
#[verifier::external_body]
pub fn push_char(s: &mut String, c: char)
    ensures
        final(s)@ == old(s)@.push(c),
{
    s.push(c);
}

/// Relies on std's `String::from_utf8`: succeeds exactly on valid UTF-8
/// input and returns the string whose byte encoding is that input.
#[verifier::external_body]
pub fn utf8_string(bytes: Vec<u8>) -> (r: Option<String>)
    ensures
        r is Some <==> vstd::utf8::valid_utf8(bytes@),
        r matches Some(s) ==> vstd::utf8::encode_utf8(s@) == bytes@,
{
    match String::from_utf8(bytes) {
        Ok(s) => Some(s),
        Err(_) => None,
    }
}

/// The characters of `s`, as a vector.
pub fn chars_vec(s: &str) -> (r: Vec<char>)
    ensures
        r@ == s@,
{
    let n = s.unicode_len();
    let mut v: Vec<char> = Vec::new();
    let mut i: usize = 0;
    while i < n
        invariant
            i <= n,
            n == s@.len(),
            v@ == s@.subrange(0, i as int),
        decreases n - i,
    {
        v.push(s.get_char(i));
        i += 1;
        proof {
            assert(v@ =~= s@.subrange(0, i as int));
        }
    }
    proof {
        assert(v@ =~= s@);
    }
    v
}

/// The string holding exactly the characters of `v`.
pub fn string_of_chars(v: &Vec<char>) -> (r: String)
    ensures
        r@ == v@,
{
    let mut s = String::new();
    let mut i: usize = 0;
    while i < v.len()
        invariant
            i <= v@.len(),
            s@ == v@.subrange(0, i as int),
        decreases v@.len() - i,
    {
        push_char(&mut s, v[i]);
        i += 1;
        proof {
            assert(s@ =~= v@.subrange(0, i as int));
        }
    }
    proof {
        assert(s@ =~= v@);
    }
    s
}

/// `s` divided at every occurrence of `sep`: the groups between separators,
/// in order. An empty string yields one empty group; `n` separators yield
/// `n + 1` groups.
pub open spec fn spec_split(s: Seq<char>, sep: char) -> Seq<Seq<char>>
    decreases s.len(),
{
    if s.len() == 0 {
        seq![Seq::<char>::empty()]
    } else {
        let rest = spec_split(s.drop_first(), sep);
        if s[0] == sep {
            seq![Seq::<char>::empty()] + rest
        } else {
            seq![seq![s[0]] + rest[0]] + rest.drop_first()
        }
    }
}

pub proof fn lemma_split_nonempty(s: Seq<char>, sep: char)
    ensures
        spec_split(s, sep).len() >= 1,
    decreases s.len(),
{
    if s.len() > 0 {
        lemma_split_nonempty(s.drop_first(), sep);
    }
}

/// Appending one character to the text extends the last group, or opens a
/// new empty group when the character is the separator.
pub proof fn lemma_split_push(s: Seq<char>, sep: char, c: char)
    ensures
        c == sep ==> spec_split(s.push(c), sep) =~~= spec_split(s, sep).push(
            Seq::<char>::empty(),
        ),
        c != sep ==> spec_split(s.push(c), sep) =~~= spec_split(s, sep).update(
            spec_split(s, sep).len() - 1,
            spec_split(s, sep).last().push(c),
        ),
    decreases s.len(),
{
    reveal_with_fuel(spec_split, 3);
    lemma_split_nonempty(s, sep);
    if s.len() == 0 {
        assert(s.push(c).drop_first() =~= Seq::<char>::empty());
        assert(s.push(c)[0] == c);
        if c == sep {
            assert(spec_split(s.push(c), sep) =~~= spec_split(s, sep).push(
                Seq::<char>::empty(),
            ));
        } else {
            assert(seq![c] + Seq::<char>::empty() =~= Seq::<char>::empty().push(c));
            assert(spec_split(s.push(c), sep) =~~= spec_split(s, sep).update(
                spec_split(s, sep).len() - 1,
                spec_split(s, sep).last().push(c),
            ));
        }
    } else {
        let t = s.drop_first();
        assert(s.push(c).drop_first() =~= t.push(c));
        assert(s.push(c)[0] == s[0]);
        lemma_split_push(t, sep, c);
        lemma_split_nonempty(t, sep);
        let rest = spec_split(t, sep);
        let restp = spec_split(t.push(c), sep);
        if c == sep {
            assert(restp =~~= rest.push(Seq::<char>::empty()));
            if s[0] == sep {
                assert(spec_split(s.push(c), sep) =~~= spec_split(s, sep).push(
                    Seq::<char>::empty(),
                ));
            } else {
                assert(restp[0] == rest[0]);
                assert(restp.drop_first() =~~= rest.drop_first().push(Seq::<char>::empty()));
                assert(spec_split(s.push(c), sep) =~~= spec_split(s, sep).push(
                    Seq::<char>::empty(),
                ));
            }
        } else {
            let k = rest.len() - 1;
            assert(restp =~~= rest.update(k, rest.last().push(c)));
            if s[0] == sep {
                assert(spec_split(s, sep) =~~= seq![Seq::<char>::empty()] + rest);
                assert(spec_split(s.push(c), sep) =~~= seq![Seq::<char>::empty()] + restp);
                assert(spec_split(s, sep).last() == rest.last());
                assert(spec_split(s.push(c), sep) =~~= spec_split(s, sep).update(
                    spec_split(s, sep).len() - 1,
                    spec_split(s, sep).last().push(c),
                ));
            } else {
                if k == 0 {
                    assert(restp[0] == rest[0].push(c));
                    assert(seq![s[0]] + rest[0].push(c) =~= (seq![s[0]] + rest[0]).push(c));
                    assert(spec_split(s, sep) =~~= seq![seq![s[0]] + rest[0]]);
                    assert(spec_split(s.push(c), sep) =~~= seq![(seq![s[0]] + rest[0]).push(c)]);
                    assert(spec_split(s.push(c), sep) =~~= spec_split(s, sep).update(
                        spec_split(s, sep).len() - 1,
                        spec_split(s, sep).last().push(c),
                    ));
                } else {
                    assert(restp[0] == rest[0]);
                    assert(restp.drop_first() =~~= rest.drop_first().update(
                        k - 1,
                        rest.last().push(c),
                    ));
                    assert(spec_split(s, sep).last() == rest.last());
                    assert(spec_split(s.push(c), sep) =~~= spec_split(s, sep).update(
                        spec_split(s, sep).len() - 1,
                        spec_split(s, sep).last().push(c),
                    ));
                }
            }
        }
    }
}

/// Divides `s` at every occurrence of `sep`.
pub fn split_chars(s: &Vec<char>, sep: char) -> (r: Vec<Vec<char>>)
    ensures
        r@.len() == spec_split(s@, sep).len(),
        forall|j: int| 0 <= j < r@.len() ==> #[trigger] r@[j]@ == spec_split(s@, sep)[j],
{
    let mut out: Vec<Vec<char>> = Vec::new();
    let mut cur: Vec<char> = Vec::new();
    let mut i: usize = 0;
    proof {
        assert(s@.subrange(0, 0) =~= Seq::<char>::empty());
    }
    while i < s.len()
        invariant
            i <= s@.len(),
            out@.len() + 1 == spec_split(s@.subrange(0, i as int), sep).len(),
            forall|j: int|
                0 <= j < out@.len() ==> #[trigger] out@[j]@ == spec_split(
                    s@.subrange(0, i as int),
                    sep,
                )[j],
            cur@ == spec_split(s@.subrange(0, i as int), sep).last(),
        decreases s@.len() - i,
    {
        proof {
            assert(s@.subrange(0, i + 1) =~= s@.subrange(0, i as int).push(s@[i as int]));
            lemma_split_push(s@.subrange(0, i as int), sep, s@[i as int]);
            lemma_split_nonempty(s@.subrange(0, i as int), sep);
        }
        if s[i] == sep {
            out.push(cur);
            cur = Vec::new();
        } else {
            cur.push(s[i]);
        }
        i += 1;
    }
    proof {
        assert(s@.subrange(0, s@.len() as int) =~= s@);
    }
    out.push(cur);
    out
}

/// True of the ten decimal digit characters.
pub open spec fn is_dec_digit(c: char) -> bool {
    '0' <= c && c <= '9'
}

/// The numeric value of a decimal digit character.
pub open spec fn dec_digit_val(c: char) -> int {
    c as int - '0' as int
}

/// The value of a string of decimal digits, most significant first.
pub open spec fn dec_val(s: Seq<char>) -> int
    decreases s.len(),
{
    if s.len() == 0 {
        0
    } else {
        dec_val(s.drop_last()) * 10 + dec_digit_val(s.last())
    }
}

/// True of the characters that may stand in a hexadecimal digit, either case.
pub open spec fn is_hex_digit(c: char) -> bool {
    ('0' <= c && c <= '9') || ('a' <= c && c <= 'f') || ('A' <= c && c <= 'F')
}

/// The numeric value of a hexadecimal digit character.
pub open spec fn hex_digit_val(c: char) -> int {
    if '0' <= c && c <= '9' {
        c as int - '0' as int
    } else if 'a' <= c && c <= 'f' {
        c as int - 'a' as int + 10
    } else {
        c as int - 'A' as int + 10
    }
}

/// The value of a string of hexadecimal digits, most significant first.
pub open spec fn hex_val(s: Seq<char>) -> int
    decreases s.len(),
{
    if s.len() == 0 {
        0
    } else {
        hex_val(s.drop_last()) * 16 + hex_digit_val(s.last())
    }
}

/// The character for one decimal digit.
pub open spec fn digit_char(d: nat) -> char {
    if d == 0 {
        '0'
    } else if d == 1 {
        '1'
    } else if d == 2 {
        '2'
    } else if d == 3 {
        '3'
    } else if d == 4 {
        '4'
    } else if d == 5 {
        '5'
    } else if d == 6 {
        '6'
    } else if d == 7 {
        '7'
    } else if d == 8 {
        '8'
    } else {
        '9'
    }
}

/// The decimal rendering of `n`, most significant digit first, no leading
/// zeros (except that zero itself renders as "0").
pub open spec fn spec_decimal(n: nat) -> Seq<char>
    decreases n,
{
    if n < 10 {
        seq![digit_char(n)]
    } else {
        spec_decimal(n / 10).push(digit_char(n % 10))
    }
}

fn digit_of(d: u64) -> (c: char)
    requires
        d < 10,
    ensures
        c == digit_char(d as nat),
{
    if d == 0 {
        '0'
    } else if d == 1 {
        '1'
    } else if d == 2 {
        '2'
    } else if d == 3 {
        '3'
    } else if d == 4 {
        '4'
    } else if d == 5 {
        '5'
    } else if d == 6 {
        '6'
    } else if d == 7 {
        '7'
    } else if d == 8 {
        '8'
    } else {
        '9'
    }
}

/// Appends the decimal rendering of `n` to `s`.
pub fn append_decimal(s: &mut String, n: u64)
    ensures
        final(s)@ == old(s)@ + spec_decimal(n as nat),
    decreases n,
{
    if n < 10 {
        push_char(s, digit_of(n));
        proof {
            assert(old(s)@.push(digit_char(n as nat)) =~= old(s)@ + spec_decimal(n as nat));
        }
    } else {
        append_decimal(s, n / 10);
        push_char(s, digit_of(n % 10));
        proof {
            assert(old(s)@ + spec_decimal((n / 10) as nat).push(digit_char((n % 10) as nat))
                =~= old(s)@ + spec_decimal(n as nat));
        }
    }
}

/// True of the ASCII whitespace characters.
pub open spec fn is_ascii_space(c: char) -> bool {
    c == ' ' || c == '\t' || c == '\r' || c == '\n'
}

/// `s` with ASCII whitespace removed from both ends.
pub open spec fn spec_trim(s: Seq<char>) -> Seq<char>
    decreases s.len(),
{
    if s.len() == 0 {
        s
    } else if is_ascii_space(s[0]) {
        spec_trim(s.drop_first())
    } else if is_ascii_space(s.last()) {
        spec_trim(s.drop_last())
    } else {
        s
    }
}

fn is_space_exec(c: char) -> (r: bool)
    ensures
        r == is_ascii_space(c),
{
    c == ' ' || c == '\t' || c == '\r' || c == '\n'
}

/// `s` with ASCII whitespace removed from both ends.
pub fn trim_chars(s: &Vec<char>) -> (r: Vec<char>)
    ensures
        r@ == spec_trim(s@),
{
    let mut lo: usize = 0;
    let mut hi: usize = s.len();
    proof {
        assert(s@.subrange(0, s@.len() as int) =~= s@);
    }
    while lo < hi && is_space_exec(s[lo])
        invariant
            lo <= hi <= s@.len(),
            spec_trim(s@.subrange(lo as int, hi as int)) == spec_trim(s@),
            hi == s@.len(),
        decreases hi - lo,
    {
        proof {
            assert(s@.subrange(lo as int, hi as int).drop_first() =~= s@.subrange(
                lo + 1,
                hi as int,
            ));
        }
        lo += 1;
    }
    while lo < hi && is_space_exec(s[hi - 1])
        invariant
            lo <= hi <= s@.len(),
            spec_trim(s@.subrange(lo as int, hi as int)) == spec_trim(s@),
            lo < hi ==> !is_ascii_space(s@[lo as int]),
        decreases hi - lo,
    {
        proof {
            assert(s@.subrange(lo as int, hi as int).drop_last() =~= s@.subrange(
                lo as int,
                hi - 1,
            ));
        }
        hi -= 1;
    }
    let mut r: Vec<char> = Vec::new();
    let mut i: usize = lo;
    while i < hi
        invariant
            lo <= i <= hi <= s@.len(),
            r@ == s@.subrange(lo as int, i as int),
        decreases hi - i,
    {
        r.push(s[i]);
        proof {
            assert(s@.subrange(lo as int, i as int).push(s@[i as int]) =~= s@.subrange(
                lo as int,
                i + 1,
            ));
        }
        i += 1;
    }
    proof {
        assert(r@ =~= s@.subrange(lo as int, hi as int));
        assert(spec_trim(s@.subrange(lo as int, hi as int)) == s@.subrange(lo as int, hi as int));
    }
    r
}

/// `needle` occurs contiguously somewhere in `hay`.
pub open spec fn spec_contains_sub(hay: Seq<char>, needle: Seq<char>) -> bool {
    exists|off: int|
        0 <= off && off + needle.len() <= hay.len() && #[trigger] hay.subrange(
            off,
            off + needle.len(),
        ) =~= needle
}

/// Whether `needle` occurs contiguously in `hay`.
pub fn contains_sub(hay: &Vec<char>, needle: &Vec<char>) -> (r: bool)
    ensures
        r == spec_contains_sub(hay@, needle@),
{
    let n = needle.len();
    let h = hay.len();
    if n > h {
        return false;
    }
    if n == 0 {
        proof {
            assert(hay@.subrange(0, 0 + needle@.len() as int) =~= needle@);
        }
        return true;
    }
    let mut off: usize = 0;
    while off <= h - n
        invariant
            n == needle@.len(),
            h == hay@.len(),
            1 <= n <= h,
            off <= h - n + 1,
            forall|o: int|
                0 <= o < off ==> #[trigger] hay@.subrange(o, o + needle@.len()) !~= needle@,
        decreases h - off,
    {
        let mut j: usize = 0;
        let mut hit = true;
        while j < n
            invariant
                n == needle@.len(),
                h == hay@.len(),
                off + n <= h,
                j <= n,
                hit ==> forall|t: int|
                    0 <= t < j ==> hay@[off + t] == #[trigger] needle@[t],
                !hit ==> hay@.subrange(off as int, off + needle@.len()) !~= needle@,
            decreases n - j,
        {
            if hay[off + j] != needle[j] {
                proof {
                    assert(hay@.subrange(off as int, off + needle@.len())[j as int] != needle@[
                        j as int]);
                }
                hit = false;
                j = n;
            } else {
                j += 1;
            }
        }
        if hit {
            proof {
                assert(hay@.subrange(off as int, off + needle@.len()) =~= needle@);
            }
            return true;
        }
        off += 1;
    }
    false
}

/// The character for one hexadecimal digit, lower case.
pub open spec fn hex_char(d: nat) -> char {
    if d < 10 {
        digit_char(d)
    } else if d == 10 {
        'a'
    } else if d == 11 {
        'b'
    } else if d == 12 {
        'c'
    } else if d == 13 {
        'd'
    } else if d == 14 {
        'e'
    } else {
        'f'
    }
}

/// The lower-case hexadecimal rendering of `n`, most significant digit
/// first, no leading zeros (zero itself renders as "0").
pub open spec fn spec_hex(n: nat) -> Seq<char>
    decreases n,
{
    if n < 16 {
        seq![hex_char(n)]
    } else {
        spec_hex(n / 16).push(hex_char(n % 16))
    }
}

pub(crate) fn hex_digit_of(d: u32) -> (c: char)
    requires
        d < 16,
    ensures
        c == hex_char(d as nat),
{
    if d == 0 {
        '0'
    } else if d == 1 {
        '1'
    } else if d == 2 {
        '2'
    } else if d == 3 {
        '3'
    } else if d == 4 {
        '4'
    } else if d == 5 {
        '5'
    } else if d == 6 {
        '6'
    } else if d == 7 {
        '7'
    } else if d == 8 {
        '8'
    } else if d == 9 {
        '9'
    } else if d == 10 {
        'a'
    } else if d == 11 {
        'b'
    } else if d == 12 {
        'c'
    } else if d == 13 {
        'd'
    } else if d == 14 {
        'e'
    } else {
        'f'
    }
}

/// Appends the lower-case hexadecimal rendering of `n` to `s`.
pub fn append_hex(s: &mut String, n: u32)
    ensures
        final(s)@ == old(s)@ + spec_hex(n as nat),
    decreases n,
{
    if n < 16 {
        push_char(s, hex_digit_of(n));
        proof {
            assert(old(s)@.push(hex_char(n as nat)) =~= old(s)@ + spec_hex(n as nat));
        }
    } else {
        append_hex(s, n / 16);
        push_char(s, hex_digit_of(n % 16));
        proof {
            assert(old(s)@ + spec_hex((n / 16) as nat).push(hex_char((n % 16) as nat)) =~= old(
                s,
            )@ + spec_hex(n as nat));
        }
    }
}

/// The decimal rendering of `n` as a string.
pub fn decimal_string(n: u64) -> (r: String)
    ensures
        r@ == spec_decimal(n as nat),
{
    let mut s = String::new();
    append_decimal(&mut s, n);
    proof {
        assert(Seq::<char>::empty() + spec_decimal(n as nat) =~= spec_decimal(n as nat));
    }
    s
}

} // verus!
