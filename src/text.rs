//! The textual pieces of a v1 header: fields split on a separator, decimal ports,
//! and IPv4 / IPv6 addresses in their usual text forms.

use vstd::prelude::*;
use crate::proxy_protocol::IpAddress;

verus! {

/// Splits `t` on every `sep`, with `cur` as the part of the current field read so far.
pub open spec fn split_acc(t: Seq<u8>, sep: u8, cur: Seq<u8>) -> Seq<Seq<u8>>
    decreases t.len(),
{
    if t.len() == 0 {
        seq![cur]
    } else if t[0] == sep {
        seq![cur] + split_acc(t.drop_first(), sep, Seq::empty())
    } else {
        split_acc(t.drop_first(), sep, cur.push(t[0]))
    }
}

/// The fields of `t` between occurrences of `sep`: always at least one, possibly empty.
pub open spec fn split(t: Seq<u8>, sep: u8) -> Seq<Seq<u8>> {
    split_acc(t, sep, Seq::empty())
}

/// A split always has at least one field.
pub proof fn lemma_split_nonempty(t: Seq<u8>, sep: u8, cur: Seq<u8>)
    ensures
        split_acc(t, sep, cur).len() >= 1,
    decreases t.len(),
{
    if t.len() > 0 && t[0] != sep {
        lemma_split_nonempty(t.drop_first(), sep, cur.push(t[0]));
    }
}

/// The contents of each vector.
pub open spec fn views(v: Seq<Vec<u8>>) -> Seq<Seq<u8>> {
    v.map_values(|x: Vec<u8>| x@)
}

/// The value of a decimal or hexadecimal digit, and -1 for any other byte.
pub open spec fn digit_value(c: u8) -> int {
    if 48 <= c <= 57 {
        c - 48
    } else if 97 <= c <= 102 {
        c - 87
    } else if 65 <= c <= 70 {
        c - 55
    } else {
        -1
    }
}

/// Every byte of `d` is a digit in `base`.
pub open spec fn all_digits(d: Seq<u8>, base: int) -> bool {
    forall|i: int| 0 <= i < d.len() ==> 0 <= #[trigger] digit_value(d[i]) < base
}

/// The number that the digits `d` denote in `base`.
pub open spec fn num_value(d: Seq<u8>, base: int) -> int
    decreases d.len(),
{
    if d.len() == 0 {
        0
    } else {
        num_value(d.drop_last(), base) * base + digit_value(d.last())
    }
}

/// A port: decimal digits after an optional `+`, at most 65535.
pub open spec fn port_of(t: Seq<u8>) -> Option<u16> {
    let d = if t.len() > 0 && t[0] == 43 { t.drop_first() } else { t };
    if d.len() > 0 && all_digits(d, 10) && num_value(d, 10) <= 65535 {
        Some(num_value(d, 10) as u16)
    } else {
        None
    }
}

/// One part of a dotted IPv4 address: one to three decimal digits, no leading
/// zero, at most 255.
pub open spec fn octet_ok(d: Seq<u8>) -> bool {
    &&& 1 <= d.len() <= 3
    &&& all_digits(d, 10)
    &&& (d.len() == 1 || d[0] != 48)
    &&& num_value(d, 10) <= 255
}

/// An IPv4 address in dotted-decimal form.
pub open spec fn ipv4_of(t: Seq<u8>) -> Option<IpAddress> {
    let p = split(t, 46);
    if p.len() == 4 && octet_ok(p[0]) && octet_ok(p[1]) && octet_ok(p[2]) && octet_ok(p[3]) {
        Some(IpAddress::V4(
            num_value(p[0], 10) as u8,
            num_value(p[1], 10) as u8,
            num_value(p[2], 10) as u8,
            num_value(p[3], 10) as u8,
        ))
    } else {
        None
    }
}

/// One group of an IPv6 address: one to four hexadecimal digits.
pub open spec fn group_ok(d: Seq<u8>) -> bool {
    1 <= d.len() <= 4 && all_digits(d, 16) && num_value(d, 16) <= 0xffff
}

/// Every field is a valid IPv6 group.
pub open spec fn all_groups_ok(p: Seq<Seq<u8>>) -> bool {
    forall|k: int| 0 <= k < p.len() ==> #[trigger] group_ok(p[k])
}

/// The value of each group.
pub open spec fn group_values(p: Seq<Seq<u8>>) -> Seq<u16> {
    p.map_values(|d: Seq<u8>| num_value(d, 16) as u16)
}

/// The two 16-bit groups that an IPv4 address fills at the end of an IPv6 address.
pub open spec fn v4_groups(a: IpAddress) -> Seq<u16> {
    match a {
        IpAddress::V4(a, b, c, d) => seq![(a as int * 256 + b as int) as u16, (c as int * 256 + d as int) as u16],
        IpAddress::V6(..) => Seq::empty(),
    }
}

/// The groups of a colon-separated list, where every field is a valid group; where
/// `v4_tail` holds, the last field may instead be a dotted IPv4 address, which
/// stands for two groups.
pub open spec fn groups_of(t: Seq<u8>, v4_tail: bool) -> Option<Seq<u16>> {
    let p = split(t, 58);
    if all_groups_ok(p) {
        Some(group_values(p))
    } else if v4_tail && all_groups_ok(p.drop_last()) && ipv4_of(p.last()) is Some {
        Some(group_values(p.drop_last()) + v4_groups(ipv4_of(p.last()).unwrap()))
    } else {
        None
    }
}

/// Like `groups_of`, where an empty text is an empty list.
pub open spec fn groups_or_none(t: Seq<u8>, v4_tail: bool) -> Option<Seq<u16>> {
    if t.len() == 0 {
        Some(Seq::empty())
    } else {
        groups_of(t, v4_tail)
    }
}

/// The first position, from `i` on, where `::` starts.
pub open spec fn double_colon_from(t: Seq<u8>, i: int) -> Option<int>
    decreases t.len() - i,
{
    if i < 0 || i + 1 >= t.len() {
        None
    } else if t[i] == 58 && t[i + 1] == 58 {
        Some(i)
    } else {
        double_colon_from(t, i + 1)
    }
}

/// The IPv6 address with the first eight of `g` as its groups.
pub open spec fn v6_of_groups(g: Seq<u16>) -> IpAddress {
    IpAddress::V6(g[0], g[1], g[2], g[3], g[4], g[5], g[6], g[7])
}

/// An IPv6 address: eight groups, or fewer around one `::` that stands for at least
/// one zero group; the last two groups may be written as a dotted IPv4 address.
pub open spec fn ipv6_of(t: Seq<u8>) -> Option<IpAddress> {
    match double_colon_from(t, 0) {
        Some(k) => {
            match (groups_or_none(t.subrange(0, k), false), groups_or_none(t.subrange(k + 2, t.len() as int), true)) {
                (Some(h), Some(r)) => {
                    if h.len() + r.len() <= 7 {
                        Some(v6_of_groups(h + Seq::new((8 - h.len() - r.len()) as nat, |i: int| 0u16) + r))
                    } else {
                        None
                    }
                },
                _ => None,
            }
        },
        None => {
            match groups_of(t, true) {
                Some(g) => if g.len() == 8 { Some(v6_of_groups(g)) } else { None },
                None => None,
            }
        },
    }
}

/// An IP address of either family.
pub open spec fn ip_of(t: Seq<u8>) -> Option<IpAddress> {
    match ipv4_of(t) {
        Some(a) => Some(a),
        None => ipv6_of(t),
    }
}

/// Splits `t` on every occurrence of `sep`.
pub fn split_bytes(t: &[u8], sep: u8) -> (r: Vec<Vec<u8>>)
    ensures
        views(r@) == split(t@, sep),
{
    let mut out: Vec<Vec<u8>> = Vec::new();
    let mut cur: Vec<u8> = Vec::new();
    let mut i: usize = 0;
    assert(t@.subrange(0, t@.len() as int) =~= t@);
    assert(views(out@) =~= Seq::<Seq<u8>>::empty());
    assert(cur@ =~= Seq::<u8>::empty());
    assert(views(out@) + split(t@, sep) =~= split(t@, sep));
    while i < t.len()
        invariant
            0 <= i <= t@.len(),
            views(out@) + split_acc(t@.subrange(i as int, t@.len() as int), sep, cur@) == split(t@, sep),
        decreases t@.len() - i,
    {
        let ghost rest = t@.subrange(i as int, t@.len() as int);
        assert(rest.drop_first() =~= t@.subrange(i + 1, t@.len() as int));
        let ghost old_out = out@;
        if t[i] == sep {
            let ghost c = cur@;
            out.push(cur);
            cur = Vec::new();
            assert(views(out@) =~= views(old_out) + seq![c]);
            assert(views(old_out) + (seq![c] + split_acc(rest.drop_first(), sep, Seq::empty()))
                =~= views(out@) + split_acc(rest.drop_first(), sep, cur@));
        } else {
            cur.push(t[i]);
        }
        i += 1;
    }
    let ghost old_out = out@;
    let ghost c = cur@;
    out.push(cur);
    assert(views(out@) =~= views(old_out) + seq![c]);
    out
}

/// The value of the digits `d` in `base`, where it stays below `limit`.
fn digits_value(d: &[u8], base: u32, limit: u32) -> (r: Option<u32>)
    requires
        base == 10 || base == 16,
        limit <= 0x10000,
    ensures
        r matches Some(v) ==> all_digits(d@, base as int) && num_value(d@, base as int) == v && v <= limit,
        r is None ==> !(all_digits(d@, base as int) && num_value(d@, base as int) <= limit),
{
    let mut v: u32 = 0;
    let mut i: usize = 0;
    while i < d.len()
        invariant
            0 <= i <= d@.len(),
            base == 10 || base == 16,
            limit <= 0x10000,
            all_digits(d@.subrange(0, i as int), base as int),
            v == num_value(d@.subrange(0, i as int), base as int),
            v <= limit,
        decreases d@.len() - i,
    {
        let c = d[i];
        let dv: u32 = if 48 <= c && c <= 57 {
            (c - 48) as u32
        } else if 97 <= c && c <= 102 {
            (c - 87) as u32
        } else if 65 <= c && c <= 70 {
            (c - 55) as u32
        } else {
            base
        };
        assert(d@.subrange(0, i + 1).drop_last() =~= d@.subrange(0, i as int));
        if dv >= base {
            assert(!all_digits(d@, base as int)) by {
                assert(digit_value(d@[i as int]) == -1 || digit_value(d@[i as int]) >= base);
            }
            return None;
        }
        let next = v * base + dv;
        if next > limit {
            proof {
                lemma_value_grows(d@, base as int, i as int + 1);
                assert(all_digits(d@, base as int) ==> all_digits(d@.subrange(0, i + 1), base as int)) by {
                    if all_digits(d@, base as int) {
                        assert forall|j: int| 0 <= j < i + 1 implies
                            0 <= #[trigger] digit_value(d@.subrange(0, i + 1)[j]) < base by {
                            assert(d@.subrange(0, i + 1)[j] == d@[j]);
                        }
                    }
                }
            }
            return None;
        }
        v = next;
        i += 1;
        assert forall|j: int| 0 <= j < i implies 0 <= #[trigger] digit_value(d@.subrange(0, i as int)[j]) < base by {
            if j < i - 1 {
                assert(d@.subrange(0, i as int)[j] == d@.subrange(0, i - 1)[j]);
            }
        }
    }
    assert(d@.subrange(0, i as int) =~= d@);
    Some(v)
}

/// The value of a digit string never drops as digits are appended.
proof fn lemma_value_grows(d: Seq<u8>, base: int, i: int)
    requires
        0 <= i <= d.len(),
        base == 10 || base == 16,
    ensures
        all_digits(d, base) ==> num_value(d, base) >= num_value(d.subrange(0, i), base),
    decreases d.len() - i,
{
    if all_digits(d, base) && i < d.len() {
        lemma_value_grows(d, base, i + 1);
        assert(d.subrange(0, i + 1).drop_last() =~= d.subrange(0, i));
        assert(0 <= digit_value(d[i]));
        lemma_value_nonneg(d.subrange(0, i), base);
        assert(num_value(d.subrange(0, i + 1), base) >= num_value(d.subrange(0, i), base)) by (nonlinear_arith)
            requires
                num_value(d.subrange(0, i + 1), base) == num_value(d.subrange(0, i), base) * base + digit_value(d[i]),
                num_value(d.subrange(0, i), base) >= 0,
                digit_value(d[i]) >= 0,
                base >= 10;
    } else if i == d.len() {
        assert(d.subrange(0, i) =~= d);
    }
}

proof fn lemma_value_nonneg(d: Seq<u8>, base: int)
    requires
        base == 10 || base == 16,
        all_digits(d, base),
    ensures
        num_value(d, base) >= 0,
    decreases d.len(),
{
    if d.len() > 0 {
        assert(all_digits(d.drop_last(), base)) by {
            assert forall|j: int| 0 <= j < d.len() - 1 implies 0 <= #[trigger] digit_value(d.drop_last()[j]) < base by {
                assert(d.drop_last()[j] == d[j]);
            }
        }
        lemma_value_nonneg(d.drop_last(), base);
        assert(0 <= digit_value(d[d.len() - 1]));
        assert(num_value(d.drop_last(), base) * base >= 0) by (nonlinear_arith)
            requires num_value(d.drop_last(), base) >= 0, base >= 10;
    }
}

/// Parses a port: decimal digits after an optional `+`, at most 65535.
pub fn parse_port(t: &[u8]) -> (r: Option<u16>)
    ensures
        r == port_of(t@),
{
    let signed = t.len() > 0 && t[0] == 43;
    let d = if signed {
        vstd::slice::slice_subrange(t, 1, t.len())
    } else {
        t
    };
    assert(d@ =~= (if t@.len() > 0 && t@[0] == 43 { t@.drop_first() } else { t@ }));
    if d.len() == 0 {
        return None;
    }
    match digits_value(d, 10, 65535) {
        Some(v) => Some(v as u16),
        None => None,
    }
}

fn parse_octet(d: &[u8]) -> (r: Option<u8>)
    ensures
        r == (if octet_ok(d@) { Some(num_value(d@, 10) as u8) } else { None }),
{
    if d.len() < 1 || d.len() > 3 || (d.len() > 1 && d[0] == 48) {
        return None;
    }
    match digits_value(d, 10, 255) {
        Some(v) => Some(v as u8),
        None => None,
    }
}

/// Parses an IPv4 address in dotted-decimal form.
pub fn parse_ipv4(t: &[u8]) -> (r: Option<IpAddress>)
    ensures
        r == ipv4_of(t@),
{
    let parts = split_bytes(t, 46);
    proof {
        assert forall|k: int| 0 <= k < parts@.len() implies #[trigger] parts@[k]@ == split(t@, 46)[k] by {
            assert(views(parts@)[k] == parts@[k]@);
        }
    }
    if parts.len() != 4 {
        return None;
    }
    let a = parse_octet(parts[0].as_slice());
    let b = parse_octet(parts[1].as_slice());
    let c = parse_octet(parts[2].as_slice());
    let d = parse_octet(parts[3].as_slice());
    match (a, b, c, d) {
        (Some(a), Some(b), Some(c), Some(d)) => Some(IpAddress::V4(a, b, c, d)),
        _ => None,
    }
}

/// Parses a colon-separated list of IPv6 groups, with a dotted IPv4 address allowed
/// as the last field where `v4_tail` holds.
#[verifier::rlimit(30)]
fn parse_groups(t: &[u8], v4_tail: bool) -> (r: Option<Vec<u16>>)
    ensures
        r matches Some(g) ==> groups_of(t@, v4_tail) == Some(g@),
        r is None ==> groups_of(t@, v4_tail) is None,
{
    let parts = split_bytes(t, 58);
    let ghost p = split(t@, 58);
    proof {
        assert forall|k: int| 0 <= k < parts@.len() implies #[trigger] parts@[k]@ == p[k] by {
            assert(views(parts@)[k] == parts@[k]@);
        }
    }
    let mut out: Vec<u16> = Vec::new();
    let mut k: usize = 0;
    while k < parts.len()
        invariant
            0 <= k <= parts@.len(),
            p == split(t@, 58),
            parts@.len() == p.len(),
            forall|j: int| 0 <= j < parts@.len() ==> #[trigger] parts@[j]@ == p[j],
            out@.len() == k,
            forall|j: int| 0 <= j < k ==> group_ok(#[trigger] p[j]) && out@[j] == num_value(p[j], 16) as u16,
        decreases parts@.len() - k,
    {
        let part = parts[k].as_slice();
        assert(part@ == p[k as int]);
        let ok = part.len() >= 1 && part.len() <= 4;
        let value = if ok { digits_value(part, 16, 0xffff) } else { None };
        match value {
            Some(v) => {
                out.push(v as u16);
            },
            None => {
                assert(!group_ok(p[k as int]));
                assert(!all_groups_ok(p));
                if k + 1 < parts.len() {
                    assert(!all_groups_ok(p.drop_last())) by {
                        assert(p.drop_last()[k as int] == p[k as int]);
                    }
                    return None;
                }
                assert(p.last() == p[k as int]);
                assert(all_groups_ok(p.drop_last())) by {
                    assert forall|j: int| 0 <= j < p.drop_last().len() implies #[trigger] group_ok(p.drop_last()[j]) by {
                        assert(p.drop_last()[j] == p[j]);
                    }
                }
                if !v4_tail {
                    return None;
                }
                match parse_ipv4(part) {
                    Some(IpAddress::V4(a, b, c, d)) => {
                        let hi: u16 = a as u16 * 256 + b as u16;
                        let lo: u16 = c as u16 * 256 + d as u16;
                        let ghost before = out@;
                        out.push(hi);
                        out.push(lo);
                        assert(before =~= group_values(p.drop_last()));
                        assert(out@ =~= before + v4_groups(IpAddress::V4(a, b, c, d)));
                        return Some(out);
                    },
                    _ => {
                        return None;
                    },
                }
            },
        }
        k += 1;
    }
    assert(out@ =~= group_values(p));
    Some(out)
}

fn parse_groups_or_none(t: &[u8], v4_tail: bool) -> (r: Option<Vec<u16>>)
    ensures
        r matches Some(g) ==> groups_or_none(t@, v4_tail) == Some(g@),
        r is None ==> groups_or_none(t@, v4_tail) is None,
{
    if t.len() == 0 {
        let v: Vec<u16> = Vec::new();
        assert(v@ =~= Seq::<u16>::empty());
        Some(v)
    } else {
        parse_groups(t, v4_tail)
    }
}

fn find_double_colon(t: &[u8]) -> (r: Option<usize>)
    ensures
        r matches Some(k) ==> double_colon_from(t@, 0) == Some(k as int) && k + 2 <= t@.len(),
        r is None ==> double_colon_from(t@, 0) is None,
{
    let mut i: usize = 0;
    while t.len() > 1 && i < t.len() - 1
        invariant
            0 <= i <= t@.len(),
            double_colon_from(t@, 0) == double_colon_from(t@, i as int),
        decreases t@.len() - i,
    {
        if t[i] == 58 && t[i + 1] == 58 {
            return Some(i);
        }
        i += 1;
    }
    None
}

/// Parses an IPv6 address: eight groups, or fewer around one `::`.
#[verifier::rlimit(30)]
pub fn parse_ipv6(t: &[u8]) -> (r: Option<IpAddress>)
    ensures
        r == ipv6_of(t@),
{
    match find_double_colon(t) {
        Some(k) => {
            let n = t.len();
            let head = parse_groups_or_none(vstd::slice::slice_subrange(t, 0, k), false);
            let tail = parse_groups_or_none(vstd::slice::slice_subrange(t, k + 2, n), true);
            match (head, tail) {
                (Some(h), Some(r)) => {
                    if h.len() > 7 || r.len() > 7 - h.len() {
                        return None;
                    }
                    let zeros = 8 - h.len() - r.len();
                    let mut full: Vec<u16> = Vec::new();
                    let mut i: usize = 0;
                    while i < h.len()
                        invariant
                            0 <= i <= h@.len(),
                            full@ == h@.subrange(0, i as int),
                        decreases h@.len() - i,
                    {
                        full.push(h[i]);
                        i += 1;
                        assert(full@ =~= h@.subrange(0, i as int));
                    }
                    let mut z: usize = 0;
                    while z < zeros
                        invariant
                            0 <= z <= zeros,
                            full@ == h@ + Seq::new(z as nat, |i: int| 0u16),
                        decreases zeros - z,
                    {
                        full.push(0);
                        z += 1;
                        assert(full@ =~= h@ + Seq::new(z as nat, |i: int| 0u16));
                    }
                    let mut j: usize = 0;
                    while j < r.len()
                        invariant
                            0 <= j <= r@.len(),
                            full@ == h@ + Seq::new(zeros as nat, |i: int| 0u16) + r@.subrange(0, j as int),
                        decreases r@.len() - j,
                    {
                        full.push(r[j]);
                        j += 1;
                        assert(full@ =~= h@ + Seq::new(zeros as nat, |i: int| 0u16) + r@.subrange(0, j as int));
                    }
                    assert(r@.subrange(0, r@.len() as int) =~= r@);
                    Some(IpAddress::V6(full[0], full[1], full[2], full[3], full[4], full[5], full[6], full[7]))
                },
                _ => None,
            }
        },
        None => {
            match parse_groups(t, true) {
                Some(g) => {
                    if g.len() == 8 {
                        Some(IpAddress::V6(g[0], g[1], g[2], g[3], g[4], g[5], g[6], g[7]))
                    } else {
                        None
                    }
                },
                None => None,
            }
        },
    }
}

/// Parses an IP address of either family, trying the IPv4 form first.
pub fn parse_ip(t: &[u8]) -> (r: Option<IpAddress>)
    ensures
        r == ip_of(t@),
{
    match parse_ipv4(t) {
        Some(a) => Some(a),
        None => parse_ipv6(t),
    }
}

/// The decimal digits of `n`, without leading zeros.
pub open spec fn dec_text(n: nat) -> Seq<u8>
    decreases n,
{
    if n < 10 {
        seq![(48 + n) as u8]
    } else {
        dec_text(n / 10).push((48 + n % 10) as u8)
    }
}

/// An IPv4 address in dotted-decimal form.
pub open spec fn ipv4_text(a: u8, b: u8, c: u8, d: u8) -> Seq<u8> {
    dec_text(a as nat) + seq![46u8] + dec_text(b as nat) + seq![46u8] + dec_text(c as nat)
        + seq![46u8] + dec_text(d as nat)
}

/// `t` holds no byte `c`.
pub open spec fn free_of(t: Seq<u8>, c: u8) -> bool {
    forall|i: int| 0 <= i < t.len() ==> t[i] != c
}

/// The decimal text of a number reads back as that number.
pub proof fn lemma_dec_text(n: nat)
    ensures
        all_digits(dec_text(n), 10),
        num_value(dec_text(n), 10) == n,
        1 <= dec_text(n).len(),
        n < 10 ==> dec_text(n).len() == 1,
        n < 100 ==> dec_text(n).len() <= 2,
        n < 1000 ==> dec_text(n).len() <= 3,
        n < 10000 ==> dec_text(n).len() <= 4,
        n < 100000 ==> dec_text(n).len() <= 5,
        n >= 10 ==> dec_text(n).len() >= 2,
        n < 10 ==> dec_text(n)[0] == 48 + n,
        dec_text(n).len() > 1 ==> dec_text(n)[0] != 48,
        forall|i: int| 0 <= i < dec_text(n).len() ==> 48 <= #[trigger] dec_text(n)[i] <= 57,
    decreases n,
{
    let t = dec_text(n);
    if n < 10 {
        assert(t.drop_last() =~= Seq::<u8>::empty());
        assert(num_value(t.drop_last(), 10) == 0);
    } else {
        let p = dec_text(n / 10);
        lemma_dec_text(n / 10);
        assert(t.drop_last() =~= p);
        assert(t[0] == p[0]);
        assert(n / 10 >= 1);
        assert forall|i: int| 0 <= i < t.len() implies 48 <= #[trigger] t[i] <= 57 by {
            if i < p.len() {
                assert(t[i] == p[i]);
            }
        }
        assert forall|i: int| 0 <= i < t.len() implies 0 <= #[trigger] digit_value(t[i]) < 10 by {
            assert(48 <= t[i] <= 57);
        }
        assert(num_value(t, 10) == (n / 10) * 10 + n % 10);
    }
}

/// Splitting a text with no separator in it gives the whole text as one field.
pub proof fn lemma_split_whole(a: Seq<u8>, sep: u8, cur: Seq<u8>)
    requires
        free_of(a, sep),
    ensures
        split_acc(a, sep, cur) == seq![cur + a],
    decreases a.len(),
{
    if a.len() == 0 {
        assert(cur + a =~= cur);
    } else {
        assert(free_of(a.drop_first(), sep)) by {
            assert forall|i: int| 0 <= i < a.drop_first().len() implies a.drop_first()[i] != sep by {
                assert(a.drop_first()[i] == a[i + 1]);
            }
        }
        lemma_split_whole(a.drop_first(), sep, cur.push(a[0]));
        assert(cur.push(a[0]) + a.drop_first() =~= cur + a);
    }
}

/// Splitting at the first separator gives the text before it as one field.
pub proof fn lemma_split_first(a: Seq<u8>, b: Seq<u8>, sep: u8, cur: Seq<u8>)
    requires
        free_of(a, sep),
    ensures
        split_acc(a + seq![sep] + b, sep, cur) == seq![cur + a] + split(b, sep),
    decreases a.len(),
{
    let t = a + seq![sep] + b;
    if a.len() == 0 {
        assert(t[0] == sep);
        assert(t.drop_first() =~= b);
        assert(cur + a =~= cur);
    } else {
        assert(t[0] == a[0]);
        assert(free_of(a.drop_first(), sep)) by {
            assert forall|i: int| 0 <= i < a.drop_first().len() implies a.drop_first()[i] != sep by {
                assert(a.drop_first()[i] == a[i + 1]);
            }
        }
        assert(t.drop_first() =~= a.drop_first() + seq![sep] + b);
        lemma_split_first(a.drop_first(), b, sep, cur.push(a[0]));
        assert(cur.push(a[0]) + a.drop_first() =~= cur + a);
    }
}

/// Decimal digits hold none of the separators of a header line or an address.
pub proof fn lemma_digits_free(n: nat)
    ensures
        free_of(dec_text(n), 32),
        free_of(dec_text(n), 46),
{
    lemma_dec_text(n);
}

/// A port written in decimal reads back as that port.
pub proof fn lemma_port_text(p: u16)
    ensures
        port_of(dec_text(p as nat)) == Some(p),
{
    lemma_dec_text(p as nat);
}

/// An IPv4 address written in dotted-decimal form reads back as that address.
#[verifier::rlimit(30)]
pub proof fn lemma_ipv4_text(a: u8, b: u8, c: u8, d: u8)
    ensures
        ipv4_of(ipv4_text(a, b, c, d)) == Some(IpAddress::V4(a, b, c, d)),
        ip_of(ipv4_text(a, b, c, d)) == Some(IpAddress::V4(a, b, c, d)),
        free_of(ipv4_text(a, b, c, d), 32),
        ipv4_text(a, b, c, d).len() <= 15,
{
    let (ta, tb, tc, td) = (dec_text(a as nat), dec_text(b as nat), dec_text(c as nat), dec_text(d as nat));
    lemma_dec_text(a as nat);
    lemma_dec_text(b as nat);
    lemma_dec_text(c as nat);
    lemma_dec_text(d as nat);
    lemma_digits_free(a as nat);
    lemma_digits_free(b as nat);
    lemma_digits_free(c as nat);
    lemma_digits_free(d as nat);
    let t = ipv4_text(a, b, c, d);
    let e = Seq::<u8>::empty();
    let r1 = tb + seq![46u8] + tc + seq![46u8] + td;
    let r2 = tc + seq![46u8] + td;
    assert(t =~= ta + seq![46u8] + r1);
    assert(r1 =~= tb + seq![46u8] + r2);
    lemma_split_first(ta, r1, 46, e);
    lemma_split_first(tb, r2, 46, e);
    lemma_split_first(tc, td, 46, e);
    lemma_split_whole(td, 46, e);
    assert(e + ta =~= ta);
    assert(e + tb =~= tb);
    assert(e + tc =~= tc);
    assert(e + td =~= td);
    let p = split(t, 46);
    assert(p =~= seq![ta, tb, tc, td]);
    assert(octet_ok(ta) && octet_ok(tb) && octet_ok(tc) && octet_ok(td));
    assert forall|i: int| 0 <= i < t.len() implies t[i] != 32 by {
        if i < ta.len() {
            assert(t[i] == ta[i]);
        } else if i == ta.len() {
        } else if i < ta.len() + 1 + tb.len() {
            assert(t[i] == tb[i - ta.len() - 1]);
        } else if i == ta.len() + 1 + tb.len() {
        } else if i < ta.len() + 2 + tb.len() + tc.len() {
            assert(t[i] == tc[i - ta.len() - 2 - tb.len()]);
        } else if i == ta.len() + 2 + tb.len() + tc.len() {
        } else {
            assert(t[i] == td[i - ta.len() - 3 - tb.len() - tc.len()]);
        }
    }
}

/// Dotted-decimal text is made of digits and dots only.
#[verifier::rlimit(30)]
pub proof fn lemma_ipv4_ascii(a: u8, b: u8, c: u8, d: u8)
    ensures
        forall|i: int| 0 <= i < ipv4_text(a, b, c, d).len() ==> 46 <= #[trigger] ipv4_text(a, b, c, d)[i] <= 57,
{
    let (ta, tb, tc, td) = (dec_text(a as nat), dec_text(b as nat), dec_text(c as nat), dec_text(d as nat));
    lemma_dec_text(a as nat);
    lemma_dec_text(b as nat);
    lemma_dec_text(c as nat);
    lemma_dec_text(d as nat);
    let t = ipv4_text(a, b, c, d);
    assert forall|i: int| 0 <= i < t.len() implies 46 <= #[trigger] t[i] <= 57 by {
        if i < ta.len() {
            assert(t[i] == ta[i]);
        } else if i == ta.len() {
        } else if i < ta.len() + 1 + tb.len() {
            assert(t[i] == tb[i - ta.len() - 1]);
        } else if i == ta.len() + 1 + tb.len() {
        } else if i < ta.len() + 2 + tb.len() + tc.len() {
            assert(t[i] == tc[i - ta.len() - 2 - tb.len()]);
        } else if i == ta.len() + 2 + tb.len() + tc.len() {
        } else {
            assert(t[i] == td[i - ta.len() - 3 - tb.len() - tc.len()]);
        }
    }
}

} // verus!
