use vstd::prelude::*;

verus! {

/// An IPv4 socket address: four octets and a port number.
#[derive(Clone, Copy, Debug, PartialEq, Eq, Hash)]
pub struct SocketAddrV4 {
    pub ip: [u8; 4],
    pub port: u16,
}

pub open spec fn is_digit(b: u8) -> bool {
    0x30 <= b <= 0x39
}

/// The ASCII decimal digits of `n`, without leading zeros.
pub open spec fn decimal(n: nat) -> Seq<u8>
    decreases n,
{
    if n < 10 {
        seq![(n + 0x30) as u8]
    } else {
        decimal(n / 10).push((n % 10 + 0x30) as u8)
    }
}

/// The number written by a run of ASCII digits.
pub open spec fn digits_value(d: Seq<u8>) -> nat
    decreases d.len(),
{
    if d.len() == 0 {
        0
    } else {
        digits_value(d.drop_last()) * 10 + (d.last() - 0x30) as nat
    }
}

/// The dotted-decimal text of an address: `a.b.c.d`.
pub open spec fn ipv4_text(ip: [u8; 4]) -> Seq<u8> {
    decimal(ip[0] as nat) + seq![0x2eu8] + decimal(ip[1] as nat) + seq![0x2eu8] + decimal(
        ip[2] as nat,
    ) + seq![0x2eu8] + decimal(ip[3] as nat)
}

/// The text of a socket address: `a.b.c.d:port`.
pub open spec fn socket_text(a: SocketAddrV4) -> Seq<u8> {
    ipv4_text(a.ip) + seq![0x3au8] + decimal(a.port as nat)
}

/// Where the run of digits that starts at `i` ends.
pub open spec fn digit_run_end(s: Seq<u8>, i: int) -> int
    decreases s.len() - i,
{
    if 0 <= i < s.len() && is_digit(s[i]) {
        digit_run_end(s, i + 1)
    } else {
        i
    }
}

/// An octet at `i`: one to three digits, no leading zero, at most 255;
/// with where it ends.
pub open spec fn octet_at(s: Seq<u8>, i: int) -> Option<(u8, int)> {
    let e = digit_run_end(s, i);
    let d = s.subrange(i, e);
    if 1 <= d.len() <= 3 && (d.len() == 1 || d[0] != 0x30) && digits_value(d) <= 255 {
        Some((digits_value(d) as u8, e))
    } else {
        None
    }
}

/// A dot at `i`, then an octet.
pub open spec fn dotted_octet_at(s: Seq<u8>, i: int) -> Option<(u8, int)> {
    if 0 <= i < s.len() && s[i] == 0x2e {
        octet_at(s, i + 1)
    } else {
        None
    }
}

/// A dotted-decimal address at `i`, with where it ends.
pub open spec fn ipv4_at(s: Seq<u8>, i: int) -> Option<([u8; 4], int)> {
    match octet_at(s, i) {
        None => None,
        Some((a, e0)) => match dotted_octet_at(s, e0) {
            None => None,
            Some((b, e1)) => match dotted_octet_at(s, e1) {
                None => None,
                Some((c, e2)) => match dotted_octet_at(s, e2) {
                    None => None,
                    Some((d, e3)) => Some(([a, b, c, d], e3)),
                },
            },
        },
    }
}

/// The address that the whole text writes, if it is one.
pub open spec fn parse_ipv4(s: Seq<u8>) -> Option<[u8; 4]> {
    match ipv4_at(s, 0) {
        Some((ip, e)) => if e == s.len() {
            Some(ip)
        } else {
            None
        },
        None => None,
    }
}

/// A port from `i` to the end: one or more digits (leading zeros allowed)
/// whose value fits in 16 bits.
pub open spec fn port_from(s: Seq<u8>, i: int) -> Option<u16> {
    let d = s.subrange(i, s.len() as int);
    if i < s.len() && digit_run_end(s, i) == s.len() && digits_value(d) <= 0xffff {
        Some(digits_value(d) as u16)
    } else {
        None
    }
}

/// The socket address that the whole text writes, if it is one.
pub open spec fn parse_socket(s: Seq<u8>) -> Option<SocketAddrV4> {
    match ipv4_at(s, 0) {
        Some((ip, e)) => if e < s.len() && s[e] == 0x3a {
            match port_from(s, e + 1) {
                Some(port) => Some(SocketAddrV4 { ip, port }),
                None => None,
            }
        } else {
            None
        },
        None => None,
    }
}

pub proof fn lemma_decimal(n: nat)
    ensures
        1 <= decimal(n).len(),
        forall|j: int| 0 <= j < decimal(n).len() ==> is_digit(#[trigger] decimal(n)[j]),
        digits_value(decimal(n)) == n,
        decimal(n).len() > 1 ==> decimal(n)[0] != 0x30,
        n < 10 ==> decimal(n).len() == 1,
        n < 100 ==> decimal(n).len() <= 2,
        n < 1000 ==> decimal(n).len() <= 3,
        n < 10000 ==> decimal(n).len() <= 4,
        n < 100000 ==> decimal(n).len() <= 5,
    decreases n,
{
    if n < 10 {
        assert(decimal(n).drop_last() =~= Seq::<u8>::empty());
        assert(digits_value(Seq::<u8>::empty()) == 0);
        assert(digits_value(decimal(n)) == digits_value(decimal(n).drop_last()) * 10 + (
        decimal(n).last() - 0x30) as nat);
    } else {
        lemma_decimal(n / 10);
        assert(decimal(n).drop_last() =~= decimal(n / 10));
        assert(decimal(n).last() == (n % 10 + 0x30) as u8);
        assert((decimal(n).last() - 0x30) as nat == n % 10);
        assert(n == (n / 10) * 10 + n % 10);
        assert(digits_value(decimal(n)) == digits_value(decimal(n).drop_last()) * 10 + (
        decimal(n).last() - 0x30) as nat);
        assert(decimal(n)[0] == decimal(n / 10)[0]);
        if decimal(n / 10).len() == 1 {
            if n / 10 >= 10 {
                lemma_decimal(n / 10 / 10);
                assert(decimal(n / 10).len() >= 2);
            }
        }
    }
}

proof fn lemma_run_end_at(s: Seq<u8>, i: int, k: int)
    requires
        0 <= i <= k <= s.len(),
        forall|j: int| i <= j < k ==> is_digit(#[trigger] s[j]),
        k == s.len() || !is_digit(s[k]),
    ensures
        digit_run_end(s, i) == k,
    decreases k - i,
{
    if i < k {
        lemma_run_end_at(s, i + 1, k);
    }
}

proof fn lemma_octet_at_text(s: Seq<u8>, i: int, n: u8)
    requires
        0 <= i,
        i + decimal(n as nat).len() <= s.len(),
        s.subrange(i, i + decimal(n as nat).len()) == decimal(n as nat),
        i + decimal(n as nat).len() == s.len() || !is_digit(s[i + decimal(n as nat).len()]),
    ensures
        octet_at(s, i) == Some((n, i + decimal(n as nat).len())),
{
    let d = decimal(n as nat);
    lemma_decimal(n as nat);
    assert forall|j: int| i <= j < i + d.len() implies is_digit(#[trigger] s[j]) by {
        assert(s[j] == s.subrange(i, i + d.len())[j - i]);
    }
    lemma_run_end_at(s, i, i + d.len());
}

/// Reading an address from the front of its text, followed by anything but
/// a digit, gives the address back.
pub proof fn lemma_ipv4_at_text(ip: [u8; 4], rest: Seq<u8>)
    requires
        rest.len() == 0 || !is_digit(rest[0]),
    ensures
        ipv4_at(ipv4_text(ip) + rest, 0) == Some((ip, ipv4_text(ip).len() as int)),
{
    let s = ipv4_text(ip) + rest;
    let d0 = decimal(ip[0] as nat);
    let d1 = decimal(ip[1] as nat);
    let d2 = decimal(ip[2] as nat);
    let d3 = decimal(ip[3] as nat);
    lemma_decimal(ip[0] as nat);
    lemma_decimal(ip[1] as nat);
    lemma_decimal(ip[2] as nat);
    lemma_decimal(ip[3] as nat);
    let e0 = d0.len() as int;
    let e1 = e0 + 1 + d1.len();
    let e2 = e1 + 1 + d2.len();
    let e3 = e2 + 1 + d3.len();
    assert(s.subrange(0, e0) =~= d0);
    assert(s[e0] == 0x2e);
    assert(s.subrange(e0 + 1, e1) =~= d1);
    assert(s[e1] == 0x2e);
    assert(s.subrange(e1 + 1, e2) =~= d2);
    assert(s[e2] == 0x2e);
    assert(s.subrange(e2 + 1, e3) =~= d3);
    assert(e3 == ipv4_text(ip).len());
    lemma_octet_at_text(s, 0, ip[0]);
    lemma_octet_at_text(s, e0 + 1, ip[1]);
    lemma_octet_at_text(s, e1 + 1, ip[2]);
    if rest.len() > 0 {
        assert(s[e3] == rest[0]);
    }
    lemma_octet_at_text(s, e2 + 1, ip[3]);
    assert([ip[0], ip[1], ip[2], ip[3]] =~= ip);
}

/// The text of an address reads back as the address.
pub proof fn lemma_ipv4_text_round_trip(ip: [u8; 4])
    ensures
        parse_ipv4(ipv4_text(ip)) == Some(ip),
{
    lemma_ipv4_at_text(ip, Seq::empty());
    assert(ipv4_text(ip) + Seq::<u8>::empty() =~= ipv4_text(ip));
}

/// The text of a socket address reads back as the socket address.
pub proof fn lemma_socket_text_round_trip(a: SocketAddrV4)
    ensures
        parse_socket(socket_text(a)) == Some(a),
{
    let s = socket_text(a);
    let t = ipv4_text(a.ip);
    let dp = decimal(a.port as nat);
    lemma_ipv4_at_text(a.ip, seq![0x3au8] + dp);
    assert(s =~= t + (seq![0x3au8] + dp));
    let e = t.len() as int;
    assert(s[e] == 0x3a);
    lemma_decimal(a.port as nat);
    assert(s.subrange(e + 1, s.len() as int) =~= dp);
    assert forall|j: int| e + 1 <= j < s.len() implies is_digit(#[trigger] s[j]) by {
        assert(s[j] == dp[j - e - 1]);
    }
    lemma_run_end_at(s, e + 1, s.len() as int);
}

/// Every byte of the text of an address is ASCII.
pub proof fn lemma_ipv4_text_ascii(ip: [u8; 4])
    ensures
        forall|j: int| 0 <= j < ipv4_text(ip).len() ==> #[trigger] ipv4_text(ip)[j] < 0x80,
{
    lemma_decimal(ip[0] as nat);
    lemma_decimal(ip[1] as nat);
    lemma_decimal(ip[2] as nat);
    lemma_decimal(ip[3] as nat);
    let s = ipv4_text(ip);
    assert forall|j: int| 0 <= j < s.len() implies #[trigger] s[j] < 0x80 by {
        let d0 = decimal(ip[0] as nat);
        let d1 = decimal(ip[1] as nat);
        let d2 = decimal(ip[2] as nat);
        let d3 = decimal(ip[3] as nat);
        let e0 = d0.len() as int;
        let e1 = e0 + 1 + d1.len();
        let e2 = e1 + 1 + d2.len();
        if j < e0 {
            assert(s[j] == d0[j]);
        } else if j == e0 {
        } else if j < e1 {
            assert(s[j] == d1[j - e0 - 1]);
        } else if j == e1 {
        } else if j < e2 {
            assert(s[j] == d2[j - e1 - 1]);
        } else if j == e2 {
        } else {
            assert(s[j] == d3[j - e2 - 1]);
        }
    }
}

/// Every byte of the text of a socket address is ASCII.
pub proof fn lemma_socket_text_ascii(a: SocketAddrV4)
    ensures
        forall|j: int| 0 <= j < socket_text(a).len() ==> #[trigger] socket_text(a)[j] < 0x80,
{
    lemma_ipv4_text_ascii(a.ip);
    lemma_decimal(a.port as nat);
    let s = socket_text(a);
    let t = ipv4_text(a.ip);
    let dp = decimal(a.port as nat);
    assert forall|j: int| 0 <= j < s.len() implies #[trigger] s[j] < 0x80 by {
        if j < t.len() {
            assert(s[j] == t[j]);
        } else if j > t.len() {
            assert(s[j] == dp[j - t.len() - 1]);
        }
    }
}

proof fn lemma_value_positive(d: Seq<u8>)
    requires
        d.len() >= 1,
        forall|j: int| 0 <= j < d.len() ==> is_digit(#[trigger] d[j]),
        d[0] != 0x30,
    ensures
        digits_value(d) >= 1,
    decreases d.len(),
{
    if d.len() > 1 {
        let p = d.drop_last();
        assert(p[0] == d[0]);
        assert forall|j: int| 0 <= j < p.len() implies is_digit(#[trigger] p[j]) by {
            assert(p[j] == d[j]);
        }
        lemma_value_positive(p);
    } else {
        assert(d.drop_last().len() == 0);
        assert(digits_value(d.drop_last()) == 0);
    }
}

/// Digits without a leading zero are the decimal text of their value.
proof fn lemma_canonical_digits(d: Seq<u8>)
    requires
        d.len() >= 1,
        forall|j: int| 0 <= j < d.len() ==> is_digit(#[trigger] d[j]),
        d.len() == 1 || d[0] != 0x30,
    ensures
        decimal(digits_value(d)) == d,
    decreases d.len(),
{
    let p = d.drop_last();
    if d.len() == 1 {
        assert(p.len() == 0);
        assert(digits_value(p) == 0);
        assert(decimal(digits_value(d)) =~= d);
    } else {
        assert(p[0] == d[0]);
        assert forall|j: int| 0 <= j < p.len() implies is_digit(#[trigger] p[j]) by {
            assert(p[j] == d[j]);
        }
        lemma_canonical_digits(p);
        lemma_value_positive(p);
        let v = digits_value(d);
        let c = (d.last() - 0x30) as nat;
        assert(is_digit(d.last()));
        assert(v == digits_value(p) * 10 + c);
        assert(v / 10 == digits_value(p));
        assert(v % 10 == c);
        assert(decimal(v) =~= d);
    }
}

proof fn lemma_octet_text(s: Seq<u8>, i: int)
    requires
        0 <= i <= s.len(),
        octet_at(s, i) is Some,
    ensures
        s.subrange(i, octet_at(s, i).unwrap().1) == decimal(octet_at(s, i).unwrap().0 as nat),
        i < octet_at(s, i).unwrap().1 <= s.len(),
{
    lemma_run_digits(s, i);
    let e = digit_run_end(s, i);
    let d = s.subrange(i, e);
    assert forall|j: int| 0 <= j < d.len() implies is_digit(#[trigger] d[j]) by {
        assert(d[j] == s[i + j]);
    }
    lemma_canonical_digits(d);
}

proof fn lemma_ipv4_at_canonical(s: Seq<u8>)
    requires
        ipv4_at(s, 0) is Some,
    ensures
        ipv4_at(s, 0).unwrap().1 <= s.len(),
        s.subrange(0, ipv4_at(s, 0).unwrap().1) == ipv4_text(ipv4_at(s, 0).unwrap().0),
{
    let (a, e0) = octet_at(s, 0).unwrap();
    lemma_octet_text(s, 0);
    let (b, e1) = dotted_octet_at(s, e0).unwrap();
    lemma_octet_text(s, e0 + 1);
    let (c, e2) = dotted_octet_at(s, e1).unwrap();
    lemma_octet_text(s, e1 + 1);
    let (d, e3) = dotted_octet_at(s, e2).unwrap();
    lemma_octet_text(s, e2 + 1);
    let ip = ipv4_at(s, 0).unwrap().0;
    assert(ip == [a, b, c, d]);
    assert(s.subrange(0, e3) =~= s.subrange(0, e0) + seq![0x2eu8] + s.subrange(e0 + 1, e1)
        + seq![0x2eu8] + s.subrange(e1 + 1, e2) + seq![0x2eu8] + s.subrange(e2 + 1, e3));
}

/// Only the dotted-decimal text of an address, with no leading zeros, reads
/// as that address.
pub proof fn lemma_parse_ipv4_canonical(s: Seq<u8>)
    requires
        parse_ipv4(s) is Some,
    ensures
        s == ipv4_text(parse_ipv4(s).unwrap()),
{
    lemma_ipv4_at_canonical(s);
    assert(s.subrange(0, s.len() as int) =~= s);
}

/// Whether `s` writes the socket address `a`: the text of its address, a
/// colon, then one or more digits (leading zeros allowed) worth the port.
pub open spec fn writes_socket(s: Seq<u8>, a: SocketAddrV4) -> bool {
    let n = ipv4_text(a.ip).len() as int;
    &&& s.len() > n + 1
    &&& s.subrange(0, n) == ipv4_text(a.ip)
    &&& s[n] == 0x3a
    &&& forall|j: int| n < j < s.len() ==> is_digit(#[trigger] s[j])
    &&& digits_value(s.subrange(n + 1, s.len() as int)) == a.port
}

/// A text reads as a socket address exactly when it writes that address.
pub proof fn lemma_parse_socket_exact(s: Seq<u8>, a: SocketAddrV4)
    ensures
        (parse_socket(s) == Some(a)) == writes_socket(s, a),
{
    let t = ipv4_text(a.ip);
    let n = t.len() as int;
    if parse_socket(s) == Some(a) {
        lemma_ipv4_at_canonical(s);
        let e = ipv4_at(s, 0).unwrap().1;
        lemma_run_digits(s, e + 1);
    }
    if writes_socket(s, a) {
        let rest = s.subrange(n, s.len() as int);
        assert(s =~= t + rest);
        lemma_ipv4_at_text(a.ip, rest);
        lemma_run_end_at(s, n + 1, s.len() as int);
    }
}

/// Appends the decimal digits of `n`.
pub fn write_decimal(out: &mut Vec<u8>, n: u16)
    ensures
        final(out)@ == old(out)@ + decimal(n as nat),
    decreases n,
{
    if n >= 10 {
        write_decimal(out, n / 10);
    }
    out.push((n % 10) as u8 + 0x30);
    assert(final(out)@ =~= old(out)@ + decimal(n as nat));
}

/// Appends the dotted-decimal text of an address.
pub fn write_ipv4(out: &mut Vec<u8>, ip: &[u8; 4])
    ensures
        final(out)@ == old(out)@ + ipv4_text(*ip),
{
    write_decimal(out, ip[0] as u16);
    out.push(0x2e);
    write_decimal(out, ip[1] as u16);
    out.push(0x2e);
    write_decimal(out, ip[2] as u16);
    out.push(0x2e);
    write_decimal(out, ip[3] as u16);
    assert(final(out)@ =~= old(out)@ + ipv4_text(*ip));
}

/// Appends the text of a socket address.
pub fn write_socket(out: &mut Vec<u8>, a: &SocketAddrV4)
    ensures
        final(out)@ == old(out)@ + socket_text(*a),
{
    write_ipv4(out, &a.ip);
    out.push(0x3a);
    write_decimal(out, a.port);
    assert(final(out)@ =~= old(out)@ + socket_text(*a));
}

fn run_end(s: &[u8], i: usize) -> (r: usize)
    requires
        i <= s@.len(),
    ensures
        r == digit_run_end(s@, i as int),
        i <= r <= s@.len(),
{
    let len: usize = s.len();
    let mut j: usize = i;
    while j < len && s[j] >= 0x30 && s[j] <= 0x39
        invariant
            i <= j <= len,
            len == s@.len(),
            digit_run_end(s@, i as int) == digit_run_end(s@, j as int),
        decreases len - j,
    {
        j += 1;
    }
    j
}

proof fn lemma_value_grows(d: Seq<u8>, k: int)
    requires
        0 <= k <= d.len(),
        forall|j: int| 0 <= j < d.len() ==> is_digit(#[trigger] d[j]),
    ensures
        digits_value(d.subrange(0, k)) <= digits_value(d),
    decreases d.len() - k,
{
    if k < d.len() {
        lemma_value_grows(d, k + 1);
        assert(d.subrange(0, k + 1).drop_last() =~= d.subrange(0, k));
    } else {
        assert(d.subrange(0, k) =~= d);
    }
}

proof fn lemma_run_digits(s: Seq<u8>, i: int)
    requires
        0 <= i <= s.len(),
    ensures
        i <= digit_run_end(s, i) <= s.len(),
        forall|j: int| i <= j < digit_run_end(s, i) ==> is_digit(#[trigger] s[j]),
        digit_run_end(s, i) < s.len() ==> !is_digit(s[digit_run_end(s, i)]),
    decreases s.len() - i,
{
    if i < s.len() && is_digit(s[i]) {
        lemma_run_digits(s, i + 1);
    }
}

/// The value of the digits from `i` to `e`, or `None` once it exceeds `limit`.
fn value_of(s: &[u8], i: usize, e: usize, limit: u32) -> (r: Option<u32>)
    requires
        i <= e <= s@.len(),
        limit <= 0xffff,
        forall|j: int| i <= j < e ==> is_digit(#[trigger] s@[j]),
    ensures
        match r {
            Some(v) => v == digits_value(s@.subrange(i as int, e as int)) && v <= limit,
            None => digits_value(s@.subrange(i as int, e as int)) > limit,
        },
{
    let mut v: u32 = 0;
    let mut j: usize = i;
    while j < e
        invariant
            i <= j <= e <= s@.len(),
            limit <= 0xffff,
            forall|k: int| i <= k < e ==> is_digit(#[trigger] s@[k]),
            v == digits_value(s@.subrange(i as int, j as int)),
            v <= limit,
        decreases e - j,
    {
        assert(s@.subrange(i as int, j + 1).drop_last() =~= s@.subrange(i as int, j as int));
        assert(is_digit(s@[j as int]));
        v = v * 10 + (s[j] - 0x30) as u32;
        j += 1;
        if v > limit {
            proof {
                let d = s@.subrange(i as int, e as int);
                assert forall|k: int| 0 <= k < d.len() implies is_digit(#[trigger] d[k]) by {
                    assert(d[k] == s@[i + k]);
                }
                lemma_value_grows(d, j - i);
                assert(d.subrange(0, j - i) =~= s@.subrange(i as int, j as int));
            }
            return None;
        }
    }
    Some(v)
}

fn octet(s: &[u8], i: usize) -> (r: Option<(u8, usize)>)
    requires
        i <= s@.len(),
    ensures
        match r {
            Some((a, e)) => octet_at(s@, i as int) == Some((a, e as int)) && e <= s@.len(),
            None => octet_at(s@, i as int) is None,
        },
{
    let e = run_end(s, i);
    proof {
        lemma_run_digits(s@, i as int);
    }
    let n: usize = e - i;
    if n < 1 || n > 3 || (n > 1 && s[i] == 0x30) {
        return None;
    }
    match value_of(s, i, e, 255) {
        Some(v) => Some((v as u8, e)),
        None => None,
    }
}

fn dotted_octet(s: &[u8], i: usize) -> (r: Option<(u8, usize)>)
    requires
        i <= s@.len(),
    ensures
        match r {
            Some((a, e)) => dotted_octet_at(s@, i as int) == Some((a, e as int)) && e <= s@.len(),
            None => dotted_octet_at(s@, i as int) is None,
        },
{
    if i < s.len() && s[i] == 0x2e {
        octet(s, i + 1)
    } else {
        None
    }
}

fn ipv4_prefix(s: &[u8]) -> (r: Option<([u8; 4], usize)>)
    ensures
        match r {
            Some((ip, e)) => ipv4_at(s@, 0) == Some((ip, e as int)) && e <= s@.len(),
            None => ipv4_at(s@, 0) is None,
        },
{
    let (a, e0) = match octet(s, 0) {
        Some(x) => x,
        None => return None,
    };
    let (b, e1) = match dotted_octet(s, e0) {
        Some(x) => x,
        None => return None,
    };
    let (c, e2) = match dotted_octet(s, e1) {
        Some(x) => x,
        None => return None,
    };
    let (d, e3) = match dotted_octet(s, e2) {
        Some(x) => x,
        None => return None,
    };
    Some(([a, b, c, d], e3))
}

/// The address written by the whole text, in dotted-decimal form.
pub fn parse_ipv4_text(s: &[u8]) -> (r: Option<[u8; 4]>)
    ensures
        r == parse_ipv4(s@),
        forall|ip: [u8; 4]| (r == Some(ip)) == (s@ == ipv4_text(ip)),
{
    proof {
        if parse_ipv4(s@) is Some {
            lemma_parse_ipv4_canonical(s@);
        }
        assert forall|ip: [u8; 4]| s@ == ipv4_text(ip) implies parse_ipv4(s@) == Some(ip) by {
            lemma_ipv4_text_round_trip(ip);
        }
    }
    match ipv4_prefix(s) {
        Some((ip, e)) => if e == s.len() {
            Some(ip)
        } else {
            None
        },
        None => None,
    }
}

/// The socket address written by the whole text, as `a.b.c.d:port`.
pub fn parse_socket_text(s: &[u8]) -> (r: Option<SocketAddrV4>)
    ensures
        r == parse_socket(s@),
        forall|a: SocketAddrV4| (r == Some(a)) == writes_socket(s@, a),
{
    proof {
        assert forall|a: SocketAddrV4| (parse_socket(s@) == Some(a)) == writes_socket(s@, a) by {
            lemma_parse_socket_exact(s@, a);
        }
    }
    let (ip, e) = match ipv4_prefix(s) {
        Some(x) => x,
        None => return None,
    };
    let len: usize = s.len();
    if e >= len || s[e] != 0x3a {
        return None;
    }
    let end = run_end(s, e + 1);
    proof {
        lemma_run_digits(s@, e + 1);
    }
    if end != len || end == e + 1 {
        return None;
    }
    match value_of(s, e + 1, len, 0xffff) {
        Some(v) => Some(SocketAddrV4 { ip, port: v as u16 }),
        None => None,
    }
}

} // verus!
