//! Network addresses in the forms this library exchanges with its callers:
//! an address with a CIDR prefix (`AllowedIp`) and a socket address
//! (`Endpoint`), each with a canonical textual form and a verified parser.
use vstd::prelude::*;

use crate::text::{
    all_le, chars_to_string, find_char, format_num, is_digit, lemma_join_chars,
    lemma_join_injective, lemma_radix_shape, parse_groups, parse_num, spec_join, spec_radix,
    str_chars,
};
use crate::WgError;

verus! {

/// An IP address, held as its address-family groups: four decimal octets,
/// or eight 16-bit hexadecimal groups.
#[derive(Clone, Copy, Debug, PartialEq, Eq, Structural)]
pub enum IpAddress {
    V4(u8, u8, u8, u8),
    V6(u16, u16, u16, u16, u16, u16, u16, u16),
}

/// A network range a peer may route traffic for: an address and a prefix
/// length.
#[derive(Clone, Copy, Debug, PartialEq, Eq, Structural)]
pub struct AllowedIp {
    pub address: IpAddress,
    pub cidr: u8,
}

/// A socket address a peer can be reached at.
#[derive(Clone, Copy, Debug, PartialEq, Eq, Structural)]
pub struct Endpoint {
    pub address: IpAddress,
    pub port: u16,
}

pub open spec fn ip_groups(ip: IpAddress) -> Seq<u32> {
    match ip {
        IpAddress::V4(a, b, c, d) => seq![a as u32, b as u32, c as u32, d as u32],
        IpAddress::V6(a, b, c, d, e, f, g, h) => seq![
            a as u32,
            b as u32,
            c as u32,
            d as u32,
            e as u32,
            f as u32,
            g as u32,
            h as u32,
        ],
    }
}

pub open spec fn ip_sep(ip: IpAddress) -> char {
    match ip {
        IpAddress::V4(..) => '.',
        IpAddress::V6(..) => ':',
    }
}

pub open spec fn ip_base(ip: IpAddress) -> nat {
    match ip {
        IpAddress::V4(..) => 10,
        IpAddress::V6(..) => 16,
    }
}

/// The widest prefix length the address family admits.
pub open spec fn ip_max_cidr(ip: IpAddress) -> u8 {
    match ip {
        IpAddress::V4(..) => 32,
        IpAddress::V6(..) => 128,
    }
}

/// The canonical text of an address: groups joined by the family separator,
/// without leading zeros.
pub open spec fn spec_format_ip(ip: IpAddress) -> Seq<char> {
    spec_join(ip_groups(ip), ip_sep(ip), ip_base(ip))
}

impl AllowedIp {
    /// The prefix length fits the address family.
    pub open spec fn wf(&self) -> bool {
        self.cidr <= ip_max_cidr(self.address)
    }
}

/// The canonical text of an allowed IP: `address/prefix`.
pub open spec fn spec_format_allowed_ip(a: AllowedIp) -> Seq<char> {
    spec_format_ip(a.address) + seq!['/'] + spec_radix(a.cidr as nat, 10)
}

/// The canonical text of an endpoint: `address:port`, the address in
/// brackets for the wider family.
pub open spec fn spec_format_endpoint(e: Endpoint) -> Seq<char> {
    match e.address {
        IpAddress::V4(..) => spec_format_ip(e.address) + seq![':'] + spec_radix(e.port as nat, 10),
        IpAddress::V6(..) => seq!['['] + spec_format_ip(e.address) + seq![']', ':'] + spec_radix(
            e.port as nat,
            10,
        ),
    }
}

/// The groups of an address as a vector, for joining and parsing.
fn ip_group_vec(ip: &IpAddress) -> (r: Vec<u32>)
    ensures
        r@ == ip_groups(*ip),
{
    let mut out: Vec<u32> = Vec::new();
    match ip {
        IpAddress::V4(a, b, c, d) => {
            out.push(*a as u32);
            out.push(*b as u32);
            out.push(*c as u32);
            out.push(*d as u32);
            proof {
                assert(out@ =~= ip_groups(*ip));
            }
        },
        IpAddress::V6(a, b, c, d, e, f, g, h) => {
            out.push(*a as u32);
            out.push(*b as u32);
            out.push(*c as u32);
            out.push(*d as u32);
            out.push(*e as u32);
            out.push(*f as u32);
            out.push(*g as u32);
            out.push(*h as u32);
            proof {
                assert(out@ =~= ip_groups(*ip));
            }
        },
    }
    out
}

/// The joined form of `vs[i..]`.
fn join_groups(vs: &Vec<u32>, i: usize, sep: char, base: u32) -> (r: Vec<char>)
    requires
        2 <= base <= 16,
        i < vs@.len(),
    ensures
        r@ == spec_join(vs@.skip(i as int), sep, base as nat),
    decreases vs@.len() - i,
{
    let mut out = format_num(vs[i], base);
    if i == vs.len() - 1 {
        proof {
            assert(vs@.skip(i as int) =~= seq![vs@[i as int]]);
        }
        out
    } else {
        out.push(sep);
        let mut rest = join_groups(vs, i + 1, sep, base);
        out.append(&mut rest);
        proof {
            let tail = vs@.skip(i as int);
            assert(tail.len() >= 2);
            assert(tail[0] == vs@[i as int]);
            assert(tail.skip(1) =~= vs@.skip(i + 1));
            assert(out@ =~= spec_radix(vs@[i as int] as nat, base as nat) + seq![sep] + spec_join(
                vs@.skip(i + 1),
                sep,
                base as nat,
            ));
        }
        out
    }
}

/// The canonical characters of an address.
fn format_ip_chars(ip: &IpAddress) -> (r: Vec<char>)
    ensures
        r@ == spec_format_ip(*ip),
{
    let groups = ip_group_vec(ip);
    let sep: char = match ip {
        IpAddress::V4(..) => '.',
        IpAddress::V6(..) => ':',
    };
    let base: u32 = match ip {
        IpAddress::V4(..) => 10,
        IpAddress::V6(..) => 16,
    };
    let r = join_groups(&groups, 0, sep, base);
    proof {
        assert(groups@.skip(0) =~= groups@);
    }
    r
}

impl AllowedIp {
    /// The canonical text `address/prefix`.
    pub fn format(&self) -> (r: String)
        ensures
            r@ == spec_format_allowed_ip(*self),
    {
        let mut cs = format_ip_chars(&self.address);
        cs.push('/');
        let mut tail = format_num(self.cidr as u32, 10);
        cs.append(&mut tail);
        proof {
            assert(cs@ =~= spec_format_allowed_ip(*self));
        }
        chars_to_string(&cs)
    }
}

impl Endpoint {
    /// The canonical text `address:port`, the address bracketed for the
    /// wider family.
    pub fn format(&self) -> (r: String)
        ensures
            r@ == spec_format_endpoint(*self),
    {
        let mut cs: Vec<char> = Vec::new();
        let is_v6 = match &self.address {
            IpAddress::V4(..) => false,
            IpAddress::V6(..) => true,
        };
        if is_v6 {
            cs.push('[');
        }
        let mut addr = format_ip_chars(&self.address);
        cs.append(&mut addr);
        if is_v6 {
            cs.push(']');
        }
        cs.push(':');
        let mut tail = format_num(self.port as u32, 10);
        cs.append(&mut tail);
        proof {
            assert(cs@ =~= spec_format_endpoint(*self));
        }
        chars_to_string(&cs)
    }
}

/// The value of `c` as a hexadecimal digit of either case, or -1.
pub open spec fn hex_val(c: char) -> int {
    let u = c as u32;
    if 48 <= u < 58 {
        u - 48
    } else if 97 <= u < 103 {
        u - 87
    } else if 65 <= u < 71 {
        u - 55
    } else {
        -1
    }
}

/// One to four hexadecimal digits of either case.
pub open spec fn is_hex_group(s: Seq<char>) -> bool {
    1 <= s.len() <= 4 && (forall|i: int| 0 <= i < s.len() ==> hex_val(#[trigger] s[i]) >= 0)
}

/// The value of a hexadecimal digit string, leading zeros allowed.
pub open spec fn hex_group_val(s: Seq<char>) -> int
    decreases s.len(),
{
    if s.len() == 0 {
        0
    } else {
        hex_group_val(s.drop_last()) * 16 + hex_val(s.last())
    }
}

spec fn pow16(n: nat) -> int
    decreases n,
{
    if n == 0 {
        1
    } else {
        16 * pow16((n - 1) as nat)
    }
}

proof fn lemma_hex_group_val_bound(s: Seq<char>)
    requires
        forall|i: int| 0 <= i < s.len() ==> hex_val(#[trigger] s[i]) >= 0,
    ensures
        0 <= hex_group_val(s) < pow16(s.len() as nat),
    decreases s.len(),
{
    if s.len() > 0 {
        let sp = s.drop_last();
        assert(forall|i: int| 0 <= i < sp.len() ==> sp[i] == s[i]);
        lemma_hex_group_val_bound(sp);
        let v = hex_group_val(sp);
        let p = pow16(sp.len() as nat);
        assert(v * 16 + hex_val(s.last()) < 16 * p) by (nonlinear_arith)
            requires
                0 <= v < p,
                0 <= hex_val(s.last()) < 16,
        ;
        assert(v * 16 >= 0) by (nonlinear_arith)
            requires
                v >= 0,
        ;
    }
}

/// A group is at most 0xffff.
proof fn lemma_hex_group_small(s: Seq<char>)
    requires
        is_hex_group(s),
    ensures
        0 <= hex_group_val(s) <= 0xffff,
{
    lemma_hex_group_val_bound(s);
    assert(pow16(0) == 1);
    assert(pow16(1) == 16);
    assert(pow16(2) == 256);
    assert(pow16(3) == 4096);
    assert(pow16(4) == 65536);
}

/// On lowercase digit strings the flexible hex value agrees with the
/// canonical radix-16 value.
proof fn lemma_hex_val_canonical(s: Seq<char>)
    requires
        forall|i: int| 0 <= i < s.len() ==> is_digit(#[trigger] s[i], 16),
    ensures
        hex_group_val(s) == crate::text::seq_val(s, 16),
    decreases s.len(),
{
    if s.len() > 0 {
        let sp = s.drop_last();
        assert(forall|i: int| 0 <= i < sp.len() ==> sp[i] == s[i]);
        lemma_hex_val_canonical(sp);
    }
}

/// The canonical radix-16 numeral of a group value has at most four digits.
proof fn lemma_radix16_group_len(v: u32)
    requires
        v <= 0xffff,
    ensures
        1 <= spec_radix(v as nat, 16).len() <= 4,
{
    lemma_radix_shape(v as nat, 16);
    if v >= 16 {
        lemma_radix_shape((v as nat) / 16, 16);
        if v >= 256 {
            lemma_radix_shape((v as nat) / 16 / 16, 16);
            if v >= 4096 {
                lemma_radix_shape((v as nat) / 16 / 16 / 16, 16);
                assert((v as nat) / 16 / 16 / 16 < 16);
            } else {
                assert((v as nat) / 16 / 16 < 16);
            }
        } else {
            assert((v as nat) / 16 < 16);
        }
    }
}

/// The first position of `c`, or the length when `c` is absent.
pub open spec fn first_pos(s: Seq<char>, c: char) -> int
    decreases s.len(),
{
    if s.len() == 0 {
        0
    } else if s[0] == c {
        0
    } else {
        1 + first_pos(s.skip(1), c)
    }
}

proof fn lemma_first_pos(s: Seq<char>, c: char)
    ensures
        0 <= first_pos(s, c) <= s.len(),
        first_pos(s, c) < s.len() ==> s[first_pos(s, c)] == c,
        forall|j: int| 0 <= j < first_pos(s, c) ==> s[j] != c,
    decreases s.len(),
{
    if s.len() > 0 && s[0] != c {
        let t = s.skip(1);
        lemma_first_pos(t, c);
        assert(forall|j: int| 0 <= j < t.len() ==> #[trigger] t[j] == s[j + 1]);
        let p = first_pos(t, c);
        assert forall|j: int| 0 <= j < 1 + p implies s[j] != c by {
            if j >= 1 {
                assert(t[j - 1] != c);
            }
        }
        if p < t.len() {
            assert(s[1 + p] == t[p]);
        }
    }
}

/// The first position where `::` starts, or the length when there is none.
pub open spec fn first_dcolon(s: Seq<char>) -> int
    decreases s.len(),
{
    if s.len() < 2 {
        s.len() as int
    } else if s[0] == ':' && s[1] == ':' {
        0
    } else {
        1 + first_dcolon(s.skip(1))
    }
}

proof fn lemma_first_dcolon(s: Seq<char>)
    ensures
        0 <= first_dcolon(s) <= s.len(),
        first_dcolon(s) < s.len() ==> first_dcolon(s) + 1 < s.len() && s[first_dcolon(s)] == ':'
            && s[first_dcolon(s) + 1] == ':',
        forall|j: int|
            0 <= j < first_dcolon(s) && j + 1 < s.len() ==> !(s[j] == ':' && #[trigger] s[j + 1]
                == ':'),
    decreases s.len(),
{
    if s.len() >= 2 && !(s[0] == ':' && s[1] == ':') {
        let t = s.skip(1);
        lemma_first_dcolon(t);
        assert(forall|j: int| 0 <= j < t.len() ==> #[trigger] t[j] == s[j + 1]);
        let p = first_dcolon(t);
        assert forall|j: int|
            0 <= j < 1 + p && j + 1 < s.len() implies !(s[j] == ':' && #[trigger] s[j + 1]
            == ':') by {
            if j >= 1 {
                assert(!(t[j - 1] == ':' && t[j] == ':'));
            }
        }
        if p < t.len() {
            assert(s[1 + p] == t[p] && s[1 + p + 1] == t[p + 1]);
        }
    }
}

/// Nonempty `:`-separated hexadecimal groups, as their values; `None` when
/// the text is not of that shape.
pub open spec fn parse_plain_groups(s: Seq<char>) -> Option<Seq<u32>>
    decreases s.len(),
    via parse_plain_groups_decreases
{
    let k = first_pos(s, ':');
    if k == s.len() {
        if is_hex_group(s) {
            Some(seq![hex_group_val(s) as u32])
        } else {
            None
        }
    } else {
        if is_hex_group(s.take(k)) {
            match parse_plain_groups(s.skip(k + 1)) {
                Some(vs) => Some(seq![hex_group_val(s.take(k)) as u32] + vs),
                None => None,
            }
        } else {
            None
        }
    }
}

#[via_fn]
proof fn parse_plain_groups_decreases(s: Seq<char>) {
    lemma_first_pos(s, ':');
}

pub open spec fn zero_groups(n: nat) -> Seq<u32> {
    Seq::new(n, |i: int| 0u32)
}

/// The standard IPv6 text grammar: eight groups of one to four hexadecimal
/// digits of either case, joined by `:`, where one `::` may stand for one
/// or more all-zero groups. `Some` holds the eight group values.
pub open spec fn spec_parse_ipv6(s: Seq<char>) -> Option<Seq<u32>> {
    let d = first_dcolon(s);
    if d == s.len() {
        match parse_plain_groups(s) {
            Some(vs) => if vs.len() == 8 {
                Some(vs)
            } else {
                None
            },
            None => None,
        }
    } else {
        let head = s.take(d);
        let tail = s.skip(d + 2);
        if first_dcolon(tail) != tail.len() {
            None
        } else {
            let hv = if head.len() == 0 {
                Some(Seq::<u32>::empty())
            } else {
                parse_plain_groups(head)
            };
            let tv = if tail.len() == 0 {
                Some(Seq::<u32>::empty())
            } else {
                parse_plain_groups(tail)
            };
            match hv {
                Some(h) => match tv {
                    Some(t) => if h.len() + t.len() <= 7 {
                        Some(h + zero_groups((8 - h.len() - t.len()) as nat) + t)
                    } else {
                        None
                    },
                    None => None,
                },
                None => None,
            }
        }
    }
}

/// Whatever the grammar accepts is eight groups of at most 0xffff.
proof fn lemma_plain_groups_bound(s: Seq<char>)
    ensures
        parse_plain_groups(s) matches Some(vs) ==> vs.len() >= 1 && all_le(vs, 0xffff),
    decreases s.len(),
{
    let k = first_pos(s, ':');
    lemma_first_pos(s, ':');
    if k == s.len() {
        if is_hex_group(s) {
            lemma_hex_group_small(s);
        }
    } else {
        if is_hex_group(s.take(k)) {
            lemma_hex_group_small(s.take(k));
            lemma_plain_groups_bound(s.skip(k + 1));
        }
    }
}

pub proof fn lemma_parse_ipv6_bound(s: Seq<char>)
    ensures
        spec_parse_ipv6(s) matches Some(vs) ==> vs.len() == 8 && all_le(vs, 0xffff),
{
    let d = first_dcolon(s);
    if d == s.len() {
        lemma_plain_groups_bound(s);
    } else {
        let head = s.take(d);
        let tail = s.skip(d + 2);
        lemma_plain_groups_bound(head);
        lemma_plain_groups_bound(tail);
        if spec_parse_ipv6(s) is Some {
            let vs = spec_parse_ipv6(s)->Some_0;
            assert(all_le(vs, 0xffff)) by {
                assert(forall|i: int| 0 <= i < vs.len() ==> #[trigger] vs[i] <= 0xffff);
            }
        }
    }
}

/// Every character the grammar accepts is a hexadecimal digit or `:`.
proof fn lemma_plain_groups_chars(s: Seq<char>)
    requires
        parse_plain_groups(s) is Some,
    ensures
        forall|j: int| 0 <= j < s.len() ==> hex_val(#[trigger] s[j]) >= 0 || s[j] == ':',
    decreases s.len(),
{
    let k = first_pos(s, ':');
    lemma_first_pos(s, ':');
    if k < s.len() {
        lemma_plain_groups_chars(s.skip(k + 1));
        assert forall|j: int|
            0 <= j < s.len() implies hex_val(#[trigger] s[j]) >= 0 || s[j] == ':' by {
            if j < k {
                assert(s.take(k)[j] == s[j]);
                assert(hex_val(s.take(k)[j]) >= 0);
            } else if j > k {
                assert(s.skip(k + 1)[j - k - 1] == s[j]);
                assert(hex_val(s.skip(k + 1)[j - k - 1]) >= 0 || s.skip(k + 1)[j - k - 1] == ':');
            }
        }
    }
}

pub proof fn lemma_parse_ipv6_chars(s: Seq<char>)
    requires
        spec_parse_ipv6(s) is Some,
    ensures
        forall|j: int| 0 <= j < s.len() ==> hex_val(#[trigger] s[j]) >= 0 || s[j] == ':',
{
    let d = first_dcolon(s);
    lemma_first_dcolon(s);
    if d == s.len() {
        lemma_plain_groups_chars(s);
    } else {
        let head = s.take(d);
        let tail = s.skip(d + 2);
        if head.len() > 0 {
            lemma_plain_groups_chars(head);
        }
        if tail.len() > 0 {
            lemma_plain_groups_chars(tail);
        }
        assert forall|j: int|
            0 <= j < s.len() implies hex_val(#[trigger] s[j]) >= 0 || s[j] == ':' by {
            if j < d {
                assert(head[j] == s[j]);
                assert(hex_val(head[j]) >= 0 || head[j] == ':');
            } else if j >= d + 2 {
                assert(tail[j - d - 2] == s[j]);
                assert(hex_val(tail[j - d - 2]) >= 0 || tail[j - d - 2] == ':');
            }
        }
    }
}

/// The canonical uncompressed form parses to exactly its groups.
proof fn lemma_join16_plain_parses(vs: Seq<u32>)
    requires
        vs.len() >= 1,
        all_le(vs, 0xffff),
    ensures
        parse_plain_groups(spec_join(vs, ':', 16)) == Some(vs),
    decreases vs.len(),
{
    let s = spec_join(vs, ':', 16);
    let r0 = spec_radix(vs[0] as nat, 16);
    lemma_radix_shape(vs[0] as nat, 16);
    assert(vs[0] <= 0xffff);
    lemma_radix16_group_len(vs[0]);
    crate::text::lemma_join_head(vs, ':', 16);
    lemma_first_pos(s, ':');
    assert(is_hex_group(r0)) by {
        assert(forall|i: int|
            0 <= i < r0.len() ==> is_digit(#[trigger] r0[i], 16) && hex_val(r0[i]) >= 0);
    }
    assert(hex_group_val(r0) == vs[0]) by {
        assert(forall|i: int| 0 <= i < r0.len() ==> is_digit(#[trigger] r0[i], 16));
        lemma_hex_val_canonical(r0);
    }
    if vs.len() == 1 {
        assert(s == r0);
        assert(first_pos(s, ':') == s.len()) by {
            if first_pos(s, ':') < s.len() {
                assert(is_digit(s[first_pos(s, ':')], 16));
            }
        }
        assert(parse_plain_groups(s) == Some(seq![hex_group_val(s) as u32]));
        assert(seq![hex_group_val(s) as u32] =~= vs);
    } else {
        let k = first_pos(s, ':');
        assert(s[r0.len() as int] == ':');
        assert(k == r0.len()) by {
            assert(forall|j: int| 0 <= j < r0.len() ==> #[trigger] s[j] == r0[j] && s[j] != ':');
            if k < r0.len() {
                assert(s[k] == ':');
            }
        }
        assert(s.take(k) =~= r0);
        assert(s.skip(k + 1) =~= spec_join(vs.skip(1), ':', 16)) by {
            let rest = spec_join(vs.skip(1), ':', 16);
            assert(forall|j: int|
                0 <= j < rest.len() ==> #[trigger] rest[j] == s[r0.len() + 1 + j]);
        }
        assert(all_le(vs.skip(1), 0xffff)) by {
            assert(forall|i: int|
                0 <= i < vs.skip(1).len() ==> #[trigger] vs.skip(1)[i] == vs[i + 1]);
        }
        lemma_join16_plain_parses(vs.skip(1));
        assert(seq![hex_group_val(r0) as u32] + vs.skip(1) =~= vs);
    }
}

/// The canonical uncompressed form holds no `::`.
proof fn lemma_join16_no_dcolon(vs: Seq<u32>)
    requires
        vs.len() >= 1,
        all_le(vs, 0xffff),
    ensures
        first_dcolon(spec_join(vs, ':', 16)) == spec_join(vs, ':', 16).len(),
    decreases vs.len(),
{
    let s = spec_join(vs, ':', 16);
    let r0 = spec_radix(vs[0] as nat, 16);
    lemma_radix_shape(vs[0] as nat, 16);
    crate::text::lemma_join_head(vs, ':', 16);
    lemma_first_dcolon(s);
    if first_dcolon(s) < s.len() {
        let d = first_dcolon(s);
        assert(s[d] == ':' && s[d + 1] == ':');
        // A ':' stands only right after a whole group, and the next
        // character starts the following group, a digit.
        if vs.len() == 1 {
            assert(is_digit(s[d], 16));
        } else {
            let rest = spec_join(vs.skip(1), ':', 16);
            assert(forall|j: int| 0 <= j < r0.len() ==> #[trigger] s[j] == r0[j]);
            assert(forall|j: int|
                0 <= j < rest.len() ==> #[trigger] rest[j] == s[r0.len() + 1 + j]);
            assert(all_le(vs.skip(1), 0xffff)) by {
                assert(forall|i: int|
                    0 <= i < vs.skip(1).len() ==> #[trigger] vs.skip(1)[i] == vs[i + 1]);
            }
            lemma_join16_no_dcolon(vs.skip(1));
            lemma_first_dcolon(rest);
            if d < r0.len() {
                assert(is_digit(s[d], 16));
            } else if d == r0.len() {
                // The next character is the first of the following group.
                crate::text::lemma_join_head(vs.skip(1), ':', 16);
                lemma_radix_shape(vs.skip(1)[0] as nat, 16);
                assert(s[d + 1] == rest[0]);
                assert(is_digit(rest[0], 16));
            } else {
                let dd = d - r0.len() - 1;
                assert(rest[dd] == s[d] && rest[dd + 1] == s[d + 1]);
                assert(!(rest[dd] == ':' && rest[dd + 1] == ':'));
            }
        }
    }
}

/// The canonical text of eight groups is in the standard grammar, with
/// exactly those group values.
proof fn lemma_canonical_ipv6_parses(vs: Seq<u32>)
    requires
        vs.len() == 8,
        all_le(vs, 0xffff),
    ensures
        spec_parse_ipv6(spec_join(vs, ':', 16)) == Some(vs),
{
    lemma_join16_no_dcolon(vs);
    lemma_join16_plain_parses(vs);
}

/// Exec hexadecimal digit lookup mirroring `hex_val`.
fn hex_digit_exec(c: char) -> (r: Option<u32>)
    ensures
        r matches Some(v) ==> hex_val(c) == v,
        r is None ==> hex_val(c) < 0,
{
    let u = c as u32;
    if 48 <= u && u < 58 {
        Some(u - 48)
    } else if 97 <= u && u < 103 {
        Some(u - 87)
    } else if 65 <= u && u < 71 {
        Some(u - 55)
    } else {
        None
    }
}

/// Parses one hexadecimal group in `s[from..to]`.
fn parse_hex_group(s: &Vec<char>, from: usize, to: usize) -> (r: Option<u32>)
    requires
        from <= to <= s@.len(),
    ensures
        r matches Some(v) ==> is_hex_group(s@.subrange(from as int, to as int)) && v
            == hex_group_val(s@.subrange(from as int, to as int)),
        r is None ==> !is_hex_group(s@.subrange(from as int, to as int)),
{
    let ghost sub = s@.subrange(from as int, to as int);
    if to - from < 1 || to - from > 4 {
        return None;
    }
    let mut acc: u32 = 0;
    let mut i: usize = from;
    while i < to
        invariant
            from <= i <= to <= s@.len(),
            1 <= to - from <= 4,
            sub == s@.subrange(from as int, to as int),
            forall|j: int| from <= j < i ==> hex_val(#[trigger] s@[j]) >= 0,
            acc == hex_group_val(s@.subrange(from as int, i as int)),
            acc < 0x10000,
        decreases to - i,
    {
        let c = s[i];
        match hex_digit_exec(c) {
            None => {
                proof {
                    assert(sub[i - from] == c);
                    assert(!is_hex_group(sub));
                }
                return None;
            },
            Some(d) => {
                proof {
                    let pre = s@.subrange(from as int, i as int);
                    let cur = s@.subrange(from as int, i + 1);
                    assert(cur.drop_last() =~= pre);
                    assert(cur.last() == c);
                    assert(forall|j: int| 0 <= j < cur.len() ==> #[trigger] cur[j] == s@[from + j]);
                    assert(forall|j: int|
                        0 <= j < cur.len() ==> hex_val(#[trigger] cur[j]) >= 0);
                    lemma_hex_group_val_bound(cur);
                    assert(pow16(0) == 1);
                    assert(pow16(1) == 16);
                    assert(pow16(2) == 256);
                    assert(pow16(3) == 4096);
                    assert(pow16(4) == 65536);
                }
                acc = acc * 16 + d;
                i += 1;
            },
        }
    }
    proof {
        assert(s@.subrange(from as int, i as int) =~= sub);
        assert(is_hex_group(sub)) by {
            assert(forall|j: int| 0 <= j < sub.len() ==> #[trigger] sub[j] == s@[from + j]);
        }
    }
    Some(acc)
}

/// The first position in `s[from..to]` where `::` starts, or `to`.
fn find_dcolon_exec(s: &Vec<char>, from: usize, to: usize) -> (r: usize)
    requires
        from <= to <= s@.len(),
    ensures
        from <= r <= to,
        r < to ==> r + 1 < to && s@[r as int] == ':' && s@[r + 1] == ':',
        forall|j: int|
            from <= j < r && j + 1 < to ==> !(s@[j] == ':' && #[trigger] s@[j + 1] == ':'),
{
    let mut i: usize = from;
    while i < to
        invariant
            from <= i <= to <= s@.len(),
            forall|j: int|
                from <= j < i && j + 1 < to ==> !(s@[j] == ':' && #[trigger] s@[j + 1] == ':'),
        decreases to - i,
    {
        if i + 1 < to && s[i] == ':' && s[i + 1] == ':' {
            return i;
        }
        i += 1;
    }
    to
}

/// Parses nonempty `:`-separated hexadecimal groups in `s[from..to]`,
/// mirroring `parse_plain_groups`.
fn parse_plain_exec(s: &Vec<char>, from: usize, to: usize) -> (r: Option<Vec<u32>>)
    requires
        from <= to <= s@.len(),
    ensures
        r matches Some(vs) ==> parse_plain_groups(s@.subrange(from as int, to as int)) == Some(
            vs@,
        ),
        r is None ==> parse_plain_groups(s@.subrange(from as int, to as int)) is None,
    decreases to - from,
{
    let ghost sub = s@.subrange(from as int, to as int);
    let k = find_char(s, from, to, ':');
    proof {
        lemma_first_pos(sub, ':');
        let fp = first_pos(sub, ':');
        assert(forall|j: int| 0 <= j < sub.len() ==> #[trigger] sub[j] == s@[from + j]);
        if fp < k - from {
            assert(sub[fp] == ':');
            assert(s@[from + fp] != ':');
        }
        if fp > k - from {
            assert(k < to);
            assert(sub[k - from] == ':');
            assert(sub[k - from] != ':');
        }
        assert(fp == k - from);
    }
    if k == to {
        match parse_hex_group(s, from, to) {
            Some(v) => {
                let mut out: Vec<u32> = Vec::new();
                out.push(v);
                proof {
                    assert(out@ =~= seq![v]);
                    assert(seq![v] =~= seq![hex_group_val(sub) as u32]);
                }
                Some(out)
            },
            None => None,
        }
    } else {
        proof {
            assert(sub.take(k - from) =~= s@.subrange(from as int, k as int));
        }
        match parse_hex_group(s, from, k) {
            None => None,
            Some(v) => {
                proof {
                    assert(sub.skip(k - from + 1) =~= s@.subrange(k + 1, to as int));
                }
                match parse_plain_exec(s, k + 1, to) {
                    None => None,
                    Some(mut vs) => {
                        let ghost old_vs = vs@;
                        vs.insert(0, v);
                        proof {
                            assert(vs@ =~= seq![hex_group_val(sub.take(k - from)) as u32]
                                + old_vs);
                        }
                        Some(vs)
                    },
                }
            },
        }
    }
}

/// Parses `s[from..to]` under the standard IPv6 text grammar, mirroring
/// `spec_parse_ipv6`; `Some` holds the eight group values, each at most
/// 0xffff.
fn parse_ipv6_exec(s: &Vec<char>, from: usize, to: usize) -> (r: Option<Vec<u32>>)
    requires
        from <= to <= s@.len(),
    ensures
        r matches Some(vs) ==> spec_parse_ipv6(s@.subrange(from as int, to as int)) == Some(vs@)
            && vs@.len() == 8 && all_le(vs@, 0xffff),
        r is None ==> spec_parse_ipv6(s@.subrange(from as int, to as int)) is None,
{
    let ghost sub = s@.subrange(from as int, to as int);
    proof {
        lemma_parse_ipv6_bound(sub);
    }
    let d = find_dcolon_exec(s, from, to);
    proof {
        lemma_first_dcolon(sub);
        let fd = first_dcolon(sub);
        assert(forall|j: int| 0 <= j < sub.len() ==> #[trigger] sub[j] == s@[from + j]);
        if fd < d - from {
            assert(sub[fd] == ':' && sub[fd + 1] == ':');
            assert(!(s@[from + fd] == ':' && s@[from + fd + 1] == ':'));
        }
        if fd > d - from {
            assert(d < to);
            assert(sub[d - from] == ':' && sub[d - from + 1] == ':');
            assert(!(sub[d - from] == ':' && sub[d - from + 1] == ':'));
        }
        assert(fd == d - from);
    }
    if d == to {
        match parse_plain_exec(s, from, to) {
            Some(vs) => {
                if vs.len() == 8 {
                    Some(vs)
                } else {
                    None
                }
            },
            None => None,
        }
    } else {
        let ghost head = sub.take(d - from);
        let ghost tail = sub.skip(d - from + 2);
        proof {
            assert(head =~= s@.subrange(from as int, d as int));
            assert(tail =~= s@.subrange(d + 2, to as int));
        }
        let d2 = find_dcolon_exec(s, d + 2, to);
        proof {
            lemma_first_dcolon(tail);
            let fd2 = first_dcolon(tail);
            assert(forall|j: int| 0 <= j < tail.len() ==> #[trigger] tail[j] == s@[d + 2 + j]);
            if fd2 < d2 - d - 2 {
                assert(tail[fd2] == ':' && tail[fd2 + 1] == ':');
                assert(!(s@[d + 2 + fd2] == ':' && s@[d + 2 + fd2 + 1] == ':'));
            }
            if fd2 > d2 - d - 2 {
                assert(d2 < to);
                assert(tail[d2 - d - 2] == ':' && tail[d2 - d - 2 + 1] == ':');
                assert(!(tail[d2 - d - 2] == ':' && tail[d2 - d - 2 + 1] == ':'));
            }
            assert(fd2 == d2 - d - 2);
        }
        if d2 < to {
            return None;
        }
        let hv: Option<Vec<u32>> = if d == from {
            Some(Vec::new())
        } else {
            parse_plain_exec(s, from, d)
        };
        let tv: Option<Vec<u32>> = if d + 2 == to {
            Some(Vec::new())
        } else {
            parse_plain_exec(s, d + 2, to)
        };
        match hv {
            None => None,
            Some(h) => match tv {
                None => None,
                Some(t) => {
                    if h.len() > 7 || t.len() > 7 || h.len() + t.len() > 7 {
                        return None;
                    }
                    let zeros = 8 - h.len() - t.len();
                    let mut out = h;
                    let mut z: usize = 0;
                    let ghost hview = out@;
                    while z < zeros
                        invariant
                            z <= zeros,
                            out@ == hview + zero_groups(z as nat),
                        decreases zeros - z,
                    {
                        out.push(0);
                        proof {
                            assert(out@ =~= hview + zero_groups((z + 1) as nat));
                        }
                        z += 1;
                    }
                    let mut t2 = t;
                    let ghost tview = t2@;
                    out.append(&mut t2);
                    proof {
                        assert(out@ == hview + zero_groups(zeros as nat) + tview);
                        if d == from {
                            assert(head.len() == 0);
                            assert(hview =~= Seq::<u32>::empty());
                        }
                        if d + 2 == to {
                            assert(tail.len() == 0);
                            assert(tview =~= Seq::<u32>::empty());
                        }
                        assert(spec_parse_ipv6(sub) == Some(out@));
                    }
                    Some(out)
                },
            },
        }
    }
}

/// The `address/prefix` form: the address characters, then the only `/`,
/// then the prefix numeral.
proof fn lemma_allowed_ip_shape(a: AllowedIp)
    ensures
        ({
            let f = spec_format_allowed_ip(a);
            let ipf = spec_format_ip(a.address);
            let cf = spec_radix(a.cidr as nat, 10);
            &&& f.len() == ipf.len() + 1 + cf.len()
            &&& forall|j: int| 0 <= j < ipf.len() ==> #[trigger] f[j] == ipf[j] && f[j] != '/'
            &&& f[ipf.len() as int] == '/'
            &&& forall|j: int| 0 <= j < cf.len() ==> #[trigger] cf[j] == f[ipf.len() + 1 + j]
            &&& ipf.len() >= 1
        }),
{
    lemma_join_chars(ip_groups(a.address), ip_sep(a.address), ip_base(a.address));
    lemma_radix_shape(ip_groups(a.address)[0] as nat, ip_base(a.address));
    assert(spec_format_ip(a.address).len() >= 1) by {
        crate::text::lemma_join_head(ip_groups(a.address), ip_sep(a.address), ip_base(a.address));
    }
    assert(!is_digit('/', 16) && !is_digit('/', 10));
}

/// The family of an address shows in its text: the narrow form holds a `.`
/// and no `:`, `[`, `]`; the wide form holds `:` separators and none of
/// `.`, `[`, `]`; and the first character is a digit.
proof fn lemma_ip_format_family(ip: IpAddress)
    ensures
        ({
            let ipf = spec_format_ip(ip);
            &&& ipf.len() >= 1
            &&& is_digit(ipf[0], ip_base(ip))
            &&& forall|j: int|
                0 <= j < ipf.len() ==> #[trigger] ipf[j] != '/' && ipf[j] != '[' && ipf[j] != ']'
            &&& (ip is V4 ==> exists|p: int| 0 <= p < ipf.len() && #[trigger] ipf[p] == '.')
            &&& (ip is V4 ==> forall|j: int| 0 <= j < ipf.len() ==> #[trigger] ipf[j] != ':')
            &&& (ip is V6 ==> forall|j: int| 0 <= j < ipf.len() ==> #[trigger] ipf[j] != '.')
        }),
{
    let gs = ip_groups(ip);
    let sep = ip_sep(ip);
    let base = ip_base(ip);
    let ipf = spec_format_ip(ip);
    lemma_join_chars(gs, sep, base);
    crate::text::lemma_join_head(gs, sep, base);
    lemma_radix_shape(gs[0] as nat, base);
    assert(!is_digit('/', 16) && !is_digit('[', 16) && !is_digit(']', 16));
    assert(!is_digit('.', 16) && !is_digit(':', 10));
    if ip is V4 {
        let p = spec_radix(gs[0] as nat, base).len() as int;
        assert(ipf[p] == '.');
    }
}

/// `s` is a textual form of the well-formed allowed IP `a`: for the
/// narrow family the canonical decimal form (the standard grammar, as
/// leading zeros are not accepted there); for the wide family any
/// standard spelling of the address, the only `/`, and the canonical
/// prefix numeral.
pub open spec fn allowed_ip_text(s: Seq<char>, a: AllowedIp) -> bool {
    match a.address {
        IpAddress::V4(..) => s == spec_format_allowed_ip(a),
        IpAddress::V6(..) => exists|sl: int|
            {
                &&& 0 <= sl < s.len()
                &&& #[trigger] s[sl] == '/'
                &&& (forall|j: int| 0 <= j < sl ==> s[j] != '/')
                &&& spec_parse_ipv6(s.take(sl)) == Some(ip_groups(a.address))
                &&& s.skip(sl + 1) == spec_radix(a.cidr as nat, 10)
            },
    }
}

/// `s` is a textual form of the endpoint `e`: for the narrow family the
/// canonical `address:port`; for the wide family any standard spelling of
/// the address in brackets, then `:` and the canonical port numeral.
pub open spec fn endpoint_text(s: Seq<char>, e: Endpoint) -> bool {
    match e.address {
        IpAddress::V4(..) => s == spec_format_endpoint(e),
        IpAddress::V6(..) => s.len() >= 1 && s[0] == '[' && exists|rb: int|
            {
                &&& 1 <= rb < s.len()
                &&& #[trigger] s[rb] == ']'
                &&& (forall|j: int| 1 <= j < rb ==> s[j] != ']')
                &&& spec_parse_ipv6(s.subrange(1, rb)) == Some(ip_groups(e.address))
                &&& rb + 1 < s.len()
                &&& s[rb + 1] == ':'
                &&& s.skip(rb + 2) == spec_radix(e.port as nat, 10)
            },
    }
}

impl AllowedIp {
    /// Parses `address/prefix`: the standard address grammar (for the wide
    /// family with `::`, either-case hex digits and leading zeros) and a
    /// canonical decimal prefix within the family's bound; `Ok` exactly on
    /// such texts, `InvalidCidr` otherwise.
    pub fn parse(s: &str) -> (r: Result<AllowedIp, WgError>)
        ensures
            r matches Ok(a) ==> a.wf() && allowed_ip_text(s@, a),
            r matches Err(e) ==> e == WgError::InvalidCidr && (forall|a: AllowedIp|
                a.wf() ==> !allowed_ip_text(s@, a)),
    {
        let cs = str_chars(s);
        let n = cs.len();
        let slash = find_char(&cs, 0, n, '/');
        proof {
            assert forall|a: AllowedIp| a.wf() && allowed_ip_text(s@, a) implies {
                &&& slash < n
                &&& (a.address is V4 ==> {
                    let ipf = spec_format_ip(a.address);
                    &&& slash == ipf.len()
                    &&& cs@.subrange(0, slash as int) == ipf
                    &&& cs@.subrange(slash + 1, n as int) == spec_radix(a.cidr as nat, 10)
                })
                &&& (a.address is V6 ==> {
                    &&& spec_parse_ipv6(cs@.subrange(0, slash as int)) == Some(
                        ip_groups(a.address),
                    )
                    &&& cs@.subrange(slash + 1, n as int) == spec_radix(a.cidr as nat, 10)
                })
            } by {
                if a.address is V4 {
                    lemma_allowed_ip_shape(a);
                    let ipf = spec_format_ip(a.address);
                    let cf = spec_radix(a.cidr as nat, 10);
                    assert(cs@[ipf.len() as int] == '/');
                    assert(forall|j: int| 0 <= j < ipf.len() ==> #[trigger] cs@[j] != '/');
                    assert(slash == ipf.len());
                    assert(cs@.subrange(0, slash as int) =~= ipf);
                    assert(cs@.subrange(slash + 1, n as int) =~= cf) by {
                        assert(forall|j: int|
                            0 <= j < cf.len() ==> #[trigger] cf[j] == cs@[slash + 1 + j]);
                    }
                } else {
                    let sl = choose|sl: int|
                        {
                            &&& 0 <= sl < s@.len()
                            &&& #[trigger] s@[sl] == '/'
                            &&& (forall|j: int| 0 <= j < sl ==> s@[j] != '/')
                            &&& spec_parse_ipv6(s@.take(sl)) == Some(ip_groups(a.address))
                            &&& s@.skip(sl + 1) == spec_radix(a.cidr as nat, 10)
                        };
                    assert(cs@[sl] == '/');
                    assert(slash < n);
                    assert(cs@[slash as int] == '/');
                    assert(sl == slash);
                    assert(s@.take(sl) =~= cs@.subrange(0, slash as int));
                    assert(s@.skip(sl + 1) =~= cs@.subrange(slash + 1, n as int));
                }
            }
        }
        if slash == n {
            proof {
                assert forall|a: AllowedIp| a.wf() implies !allowed_ip_text(s@, a) by {}
            }
            return Err(WgError::InvalidCidr);
        }
        let dot = find_char(&cs, 0, slash, '.');
        proof {
            assert forall|a: AllowedIp|
                a.wf() && allowed_ip_text(s@, a) implies (a.address is V4 <==> dot < slash) by {
                if a.address is V4 {
                    lemma_ip_format_family(a.address);
                    let ipf = spec_format_ip(a.address);
                    let p = choose|p: int| 0 <= p < ipf.len() && ipf[p] == '.';
                    assert(cs@[p] == '.');
                    assert(dot < slash);
                } else {
                    lemma_parse_ipv6_chars(cs@.subrange(0, slash as int));
                    assert forall|j: int| 0 <= j < slash implies cs@[j] != '.' by {
                        let t = cs@.subrange(0, slash as int);
                        assert(hex_val(t[j]) >= 0 || t[j] == ':');
                        assert(t[j] == cs@[j]);
                    }
                }
            }
        }
        if dot < slash {
            // Four decimal octets, as the standard grammar has them.
            match parse_groups(&cs, 0, slash, '.', 10, 255, 4) {
                None => {
                    proof {
                        assert forall|a: AllowedIp| a.wf() implies !allowed_ip_text(s@, a) by {
                            if allowed_ip_text(s@, a) {
                                assert(a.address is V4);
                                assert(all_le(ip_groups(a.address), 255)) by {
                                    assert(forall|i: int|
                                        0 <= i < ip_groups(a.address).len()
                                            ==> #[trigger] ip_groups(a.address)[i] <= 255);
                                }
                            }
                        }
                    }
                    Err(WgError::InvalidCidr)
                },
                Some(gs) => {
                    match parse_num(&cs, slash + 1, n, 10, 32) {
                        None => {
                            proof {
                                assert forall|a: AllowedIp|
                                    a.wf() implies !allowed_ip_text(s@, a) by {
                                    if allowed_ip_text(s@, a) {
                                        assert(a.address is V4);
                                        assert(a.cidr <= 32);
                                    }
                                }
                            }
                            Err(WgError::InvalidCidr)
                        },
                        Some(c) => {
                            let ip = IpAddress::V4(
                                gs[0] as u8,
                                gs[1] as u8,
                                gs[2] as u8,
                                gs[3] as u8,
                            );
                            let res = AllowedIp { address: ip, cidr: c as u8 };
                            proof {
                                assert(ip_groups(ip) =~= gs@);
                                assert(s@ =~= cs@.subrange(0, slash as int) + seq!['/']
                                    + cs@.subrange(slash + 1, n as int));
                                assert(s@ == spec_format_allowed_ip(res));
                            }
                            Ok(res)
                        },
                    }
                },
            }
        } else {
            // The wide family, under the standard grammar.
            match parse_ipv6_exec(&cs, 0, slash) {
                None => {
                    proof {
                        assert forall|a: AllowedIp| a.wf() implies !allowed_ip_text(s@, a) by {
                            if allowed_ip_text(s@, a) {
                                assert(a.address is V6);
                            }
                        }
                    }
                    Err(WgError::InvalidCidr)
                },
                Some(gs) => {
                    match parse_num(&cs, slash + 1, n, 10, 128) {
                        None => {
                            proof {
                                assert forall|a: AllowedIp|
                                    a.wf() implies !allowed_ip_text(s@, a) by {
                                    if allowed_ip_text(s@, a) {
                                        assert(a.address is V6);
                                        assert(a.cidr <= 128);
                                    }
                                }
                            }
                            Err(WgError::InvalidCidr)
                        },
                        Some(c) => {
                            let ip = IpAddress::V6(
                                gs[0] as u16,
                                gs[1] as u16,
                                gs[2] as u16,
                                gs[3] as u16,
                                gs[4] as u16,
                                gs[5] as u16,
                                gs[6] as u16,
                                gs[7] as u16,
                            );
                            let res = AllowedIp { address: ip, cidr: c as u8 };
                            proof {
                                assert(ip_groups(ip) =~= gs@);
                                assert(s@.take(slash as int) =~= cs@.subrange(0, slash as int));
                                assert(s@.skip(slash + 1) =~= cs@.subrange(slash + 1, n as int));
                                assert(s@[slash as int] == '/');
                                assert(allowed_ip_text(s@, res));
                            }
                            Ok(res)
                        },
                    }
                },
            }
        }
    }
}

/// The canonical `address:port` form of the narrow family: where the only
/// `:` separator stands, and that neither `[` nor a second `:` occurs
/// before it.
proof fn lemma_endpoint_shape(e: Endpoint)
    requires
        e.address is V4,
    ensures
        ({
            let f = spec_format_endpoint(e);
            let ipf = spec_format_ip(e.address);
            let pf = spec_radix(e.port as nat, 10);
            &&& f.len() == ipf.len() + 1 + pf.len()
            &&& f.len() >= 3
            &&& f[0] != '['
            &&& forall|j: int| 0 <= j < ipf.len() ==> #[trigger] f[j] == ipf[j] && f[j] != ':'
            &&& f[ipf.len() as int] == ':'
            &&& forall|j: int| 0 <= j < pf.len() ==> #[trigger] pf[j] == f[ipf.len() + 1 + j]
        }),
{
    lemma_ip_format_family(e.address);
    lemma_radix_shape(e.port as nat, 10);
    assert(!is_digit('[', 10));
}

impl Endpoint {
    /// Parses `address:port`: the standard address grammar (the wide
    /// family bracketed, with `::`, either-case hex digits and leading
    /// zeros) and a canonical decimal port; `Ok` exactly on such texts,
    /// `InvalidEndpoint` otherwise.
    pub fn parse(s: &str) -> (r: Result<Endpoint, WgError>)
        ensures
            r matches Ok(e) ==> endpoint_text(s@, e),
            r matches Err(er) ==> er == WgError::InvalidEndpoint && (forall|e: Endpoint|
                !endpoint_text(s@, e)),
    {
        let cs = str_chars(s);
        let n = cs.len();
        proof {
            assert forall|e: Endpoint| endpoint_text(s@, e) implies n >= 1 by {
                if e.address is V4 {
                    lemma_endpoint_shape(e);
                }
            }
        }
        if n == 0 {
            return Err(WgError::InvalidEndpoint);
        }
        if cs[0] == '[' {
            let rb = find_char(&cs, 1, n, ']');
            proof {
                assert forall|e: Endpoint| endpoint_text(s@, e) implies {
                    &&& e.address is V6
                    &&& rb + 1 < n
                    &&& cs@[rb as int] == ']'
                    &&& cs@[rb + 1] == ':'
                    &&& spec_parse_ipv6(cs@.subrange(1, rb as int)) == Some(ip_groups(e.address))
                    &&& cs@.subrange(rb + 2, n as int) == spec_radix(e.port as nat, 10)
                } by {
                    assert(e.address is V6) by {
                        if e.address is V4 {
                            lemma_endpoint_shape(e);
                            assert(spec_format_endpoint(e)[0] != '[');
                        }
                    }
                    let rbx = choose|rbx: int|
                        {
                            &&& 1 <= rbx < s@.len()
                            &&& #[trigger] s@[rbx] == ']'
                            &&& (forall|j: int| 1 <= j < rbx ==> s@[j] != ']')
                            &&& spec_parse_ipv6(s@.subrange(1, rbx)) == Some(ip_groups(e.address))
                            &&& rbx + 1 < s@.len()
                            &&& s@[rbx + 1] == ':'
                            &&& s@.skip(rbx + 2) == spec_radix(e.port as nat, 10)
                        };
                    assert(cs@[rbx] == ']');
                    assert(rb < n);
                    assert(cs@[rb as int] == ']');
                    assert(rbx == rb);
                    assert(s@.subrange(1, rbx) =~= cs@.subrange(1, rb as int));
                    assert(s@.skip(rbx + 2) =~= cs@.subrange(rb + 2, n as int));
                }
            }
            if rb == n {
                return Err(WgError::InvalidEndpoint);
            }
            if rb + 1 >= n {
                return Err(WgError::InvalidEndpoint);
            }
            if cs[rb + 1] != ':' {
                return Err(WgError::InvalidEndpoint);
            }
            match parse_ipv6_exec(&cs, 1, rb) {
                None => {
                    proof {
                        assert forall|e: Endpoint| !endpoint_text(s@, e) by {}
                    }
                    Err(WgError::InvalidEndpoint)
                },
                Some(gs) => {
                    match parse_num(&cs, rb + 2, n, 10, 0xffff) {
                        None => {
                            proof {
                                assert forall|e: Endpoint| !endpoint_text(s@, e) by {}
                            }
                            Err(WgError::InvalidEndpoint)
                        },
                        Some(p) => {
                            let ip = IpAddress::V6(
                                gs[0] as u16,
                                gs[1] as u16,
                                gs[2] as u16,
                                gs[3] as u16,
                                gs[4] as u16,
                                gs[5] as u16,
                                gs[6] as u16,
                                gs[7] as u16,
                            );
                            let res = Endpoint { address: ip, port: p as u16 };
                            proof {
                                assert(ip_groups(ip) =~= gs@);
                                assert(s@.subrange(1, rb as int) =~= cs@.subrange(1, rb as int));
                                assert(s@.skip(rb + 2) =~= cs@.subrange(rb + 2, n as int));
                                assert(s@[rb as int] == ']' && s@[rb + 1] == ':' && s@[0] == '[');
                                assert(endpoint_text(s@, res));
                            }
                            Ok(res)
                        },
                    }
                },
            }
        } else {
            let colon = find_char(&cs, 0, n, ':');
            proof {
                assert forall|e: Endpoint| endpoint_text(s@, e) implies {
                    let ipf = spec_format_ip(e.address);
                    &&& e.address is V4
                    &&& colon == ipf.len()
                    &&& colon < n
                    &&& cs@.subrange(0, colon as int) == ipf
                    &&& cs@.subrange(colon + 1, n as int) == spec_radix(e.port as nat, 10)
                } by {
                    assert(e.address is V4) by {
                        if e.address is V6 {
                            assert(cs@[0] == '[');
                        }
                    }
                    lemma_endpoint_shape(e);
                    let ipf = spec_format_ip(e.address);
                    let pf = spec_radix(e.port as nat, 10);
                    assert(cs@[ipf.len() as int] == ':');
                    assert(forall|j: int| 0 <= j < ipf.len() ==> #[trigger] cs@[j] != ':');
                    assert(colon == ipf.len());
                    assert(pf.len() >= 1) by {
                        lemma_radix_shape(e.port as nat, 10);
                    }
                    assert(cs@.subrange(0, colon as int) =~= ipf);
                    assert(cs@.subrange(colon + 1, n as int) =~= pf) by {
                        assert(forall|j: int|
                            0 <= j < pf.len() ==> #[trigger] pf[j] == cs@[colon + 1 + j]);
                    }
                }
            }
            if colon == n {
                return Err(WgError::InvalidEndpoint);
            }
            match parse_groups(&cs, 0, colon, '.', 10, 255, 4) {
                None => {
                    proof {
                        assert forall|e: Endpoint| !endpoint_text(s@, e) by {
                            if endpoint_text(s@, e) {
                                assert(all_le(ip_groups(e.address), 255)) by {
                                    assert(forall|i: int|
                                        0 <= i < ip_groups(e.address).len()
                                            ==> #[trigger] ip_groups(e.address)[i] <= 255);
                                }
                            }
                        }
                    }
                    Err(WgError::InvalidEndpoint)
                },
                Some(gs) => {
                    match parse_num(&cs, colon + 1, n, 10, 0xffff) {
                        None => {
                            proof {
                                assert forall|e: Endpoint| !endpoint_text(s@, e) by {}
                            }
                            Err(WgError::InvalidEndpoint)
                        },
                        Some(p) => {
                            let ip = IpAddress::V4(
                                gs[0] as u8,
                                gs[1] as u8,
                                gs[2] as u8,
                                gs[3] as u8,
                            );
                            let res = Endpoint { address: ip, port: p as u16 };
                            proof {
                                assert(ip_groups(ip) =~= gs@);
                                assert(s@ =~= cs@.subrange(0, colon as int) + seq![':']
                                    + cs@.subrange(colon + 1, n as int));
                                assert(s@ == spec_format_endpoint(res));
                            }
                            Ok(res)
                        },
                    }
                },
            }
        }
    }
}

/// The canonical text of an allowed IP names it uniquely among canonical
/// texts.
pub proof fn lemma_allowed_ip_format_injective(a: AllowedIp, b: AllowedIp)
    requires
        a.wf(),
        b.wf(),
        spec_format_allowed_ip(a) == spec_format_allowed_ip(b),
    ensures
        a == b,
{
    let f = spec_format_allowed_ip(a);
    let ipa = spec_format_ip(a.address);
    let ipb = spec_format_ip(b.address);
    let ca = spec_radix(a.cidr as nat, 10);
    let cb = spec_radix(b.cidr as nat, 10);
    lemma_allowed_ip_shape(a);
    lemma_allowed_ip_shape(b);
    assert(ipa.len() == ipb.len()) by {
        if ipa.len() < ipb.len() {
            assert(f[ipa.len() as int] == '/');
            assert(f[ipa.len() as int] == ipb[ipa.len() as int]);
        }
        if ipb.len() < ipa.len() {
            assert(f[ipb.len() as int] == '/');
            assert(f[ipb.len() as int] == ipa[ipb.len() as int]);
        }
    }
    assert(ipa =~= ipb) by {
        assert(forall|j: int| 0 <= j < ipa.len() ==> #[trigger] ipa[j] == f[j] && ipb[j] == f[j]);
    }
    assert(ca =~= cb) by {
        assert(ca.len() == cb.len());
        assert(forall|j: int|
            0 <= j < ca.len() ==> #[trigger] ca[j] == f[ipa.len() + 1 + j] && #[trigger] cb[j] == f[
            ipa.len() + 1 + j]);
    }
    assert(a.cidr == b.cidr) by {
        lemma_radix_shape(a.cidr as nat, 10);
        lemma_radix_shape(b.cidr as nat, 10);
    }
    lemma_ip_format_family(a.address);
    lemma_ip_format_family(b.address);
    assert(a.address is V4 <==> b.address is V4) by {
        if a.address is V4 && b.address is V6 {
            let p = choose|p: int| 0 <= p < ipa.len() && ipa[p] == '.';
            assert(ipb[p] != '.');
        }
        if b.address is V4 && a.address is V6 {
            let p = choose|p: int| 0 <= p < ipb.len() && ipb[p] == '.';
            assert(ipa[p] != '.');
        }
    }
    lemma_join_injective(
        ip_groups(a.address),
        ip_groups(b.address),
        ip_sep(a.address),
        ip_base(a.address),
    );
    assert(ip_groups(a.address) == ip_groups(b.address));
    assert(a.address == b.address) by {
        let ga = ip_groups(a.address);
        let gb = ip_groups(b.address);
        assert(forall|i: int| 0 <= i < ga.len() ==> #[trigger] ga[i] == gb[i]);
    }
}

/// The canonical text of a well-formed allowed IP is in the grammar the
/// parser accepts, naming exactly that allowed IP.
pub proof fn lemma_allowed_ip_canonical_text(a: AllowedIp)
    requires
        a.wf(),
    ensures
        allowed_ip_text(spec_format_allowed_ip(a), a),
{
    let f = spec_format_allowed_ip(a);
    if a.address is V6 {
        lemma_allowed_ip_shape(a);
        let ipf = spec_format_ip(a.address);
        let sl = ipf.len() as int;
        assert(f[sl] == '/');
        assert(f.take(sl) =~= ipf);
        assert(f.skip(sl + 1) =~= spec_radix(a.cidr as nat, 10)) by {
            let cf = spec_radix(a.cidr as nat, 10);
            assert(forall|j: int| 0 <= j < cf.len() ==> #[trigger] cf[j] == f[sl + 1 + j]);
        }
        assert(all_le(ip_groups(a.address), 0xffff)) by {
            assert(forall|i: int|
                0 <= i < ip_groups(a.address).len() ==> #[trigger] ip_groups(a.address)[i]
                    <= 0xffff);
        }
        lemma_canonical_ipv6_parses(ip_groups(a.address));
    }
}

/// One text names one allowed IP: a string accepted for two well-formed
/// values forces them equal, so parsing the canonical text of `a` yields
/// exactly `a` back.
pub proof fn lemma_allowed_ip_text_unique(s: Seq<char>, a: AllowedIp, b: AllowedIp)
    requires
        a.wf(),
        b.wf(),
        allowed_ip_text(s, a),
        allowed_ip_text(s, b),
    ensures
        a == b,
{
    if a.address is V4 && b.address is V4 {
        lemma_allowed_ip_format_injective(a, b);
    } else if a.address is V6 && b.address is V6 {
        let sa = choose|sl: int|
            {
                &&& 0 <= sl < s.len()
                &&& #[trigger] s[sl] == '/'
                &&& (forall|j: int| 0 <= j < sl ==> s[j] != '/')
                &&& spec_parse_ipv6(s.take(sl)) == Some(ip_groups(a.address))
                &&& s.skip(sl + 1) == spec_radix(a.cidr as nat, 10)
            };
        let sb = choose|sl: int|
            {
                &&& 0 <= sl < s.len()
                &&& #[trigger] s[sl] == '/'
                &&& (forall|j: int| 0 <= j < sl ==> s[j] != '/')
                &&& spec_parse_ipv6(s.take(sl)) == Some(ip_groups(b.address))
                &&& s.skip(sl + 1) == spec_radix(b.cidr as nat, 10)
            };
        assert(sa == sb) by {
            if sa < sb {
                assert(s[sa] != '/');
            }
            if sb < sa {
                assert(s[sb] != '/');
            }
        }
        assert(ip_groups(a.address) == ip_groups(b.address));
        assert(a.address == b.address) by {
            let ga = ip_groups(a.address);
            let gb = ip_groups(b.address);
            assert(forall|i: int| 0 <= i < ga.len() ==> #[trigger] ga[i] == gb[i]);
        }
        assert(a.cidr == b.cidr) by {
            lemma_radix_shape(a.cidr as nat, 10);
            lemma_radix_shape(b.cidr as nat, 10);
            assert(spec_radix(a.cidr as nat, 10) == spec_radix(b.cidr as nat, 10));
        }
    } else {
        // Mixed families cannot happen: the narrow canonical text has a
        // `.` before the `/`, where the wide grammar admits only hex
        // digits and `:`. Take `na` as the narrow one.
        let (na, wb) = if a.address is V4 {
            (a, b)
        } else {
            (b, a)
        };
        lemma_allowed_ip_shape(na);
        lemma_ip_format_family(na.address);
        let ipf = spec_format_ip(na.address);
        let p = choose|p: int| 0 <= p < ipf.len() && ipf[p] == '.';
        let sb = choose|sl: int|
            {
                &&& 0 <= sl < s.len()
                &&& #[trigger] s[sl] == '/'
                &&& (forall|j: int| 0 <= j < sl ==> s[j] != '/')
                &&& spec_parse_ipv6(s.take(sl)) == Some(ip_groups(wb.address))
                &&& s.skip(sl + 1) == spec_radix(wb.cidr as nat, 10)
            };
        assert(sb == ipf.len()) by {
            assert(s[ipf.len() as int] == '/');
            if sb < ipf.len() {
                assert(s[sb] == ipf[sb] && s[sb] != '/');
            }
            if sb > ipf.len() {
                assert(s[ipf.len() as int] != '/');
            }
        }
        lemma_parse_ipv6_chars(s.take(sb));
        assert(s.take(sb)[p] == s[p] && s[p] == ipf[p]);
        assert(hex_val('.') < 0 && '.' != ':');
    }
}

} // verus!
