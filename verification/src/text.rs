//! Canonical textual numerals in a radix, with verified parsing and
//! formatting, shared by the address, CIDR, endpoint and key codecs.
use vstd::prelude::*;
use vstd::arithmetic::div_mod::{
    lemma_div_is_strictly_smaller, lemma_div_non_zero, lemma_fundamental_div_mod,
    lemma_fundamental_div_mod_converse_div, lemma_fundamental_div_mod_converse_mod,
};
use vstd::utf8::char_u32_cast;

verus! {

/// The character standing for digit value `d`: `0`-`9`, then lowercase `a`-`f`.
pub open spec fn digit_char(d: nat) -> char
    recommends
        d < 16,
{
    if d < 10 {
        ((d + 48) as u8) as char
    } else {
        ((d + 87) as u8) as char
    }
}

/// The digit value of character `c`, or -1 when `c` is no digit of radix 16.
pub open spec fn digit_val(c: char) -> int {
    let u = c as u32;
    if 48 <= u < 58 {
        u - 48
    } else if 97 <= u < 103 {
        u - 87
    } else {
        -1
    }
}

/// Whether `c` is a digit of radix `base`.
pub open spec fn is_digit(c: char, base: nat) -> bool {
    0 <= digit_val(c) < base
}

pub open spec fn all_digits(s: Seq<char>, base: nat) -> bool {
    forall|i: int| 0 <= i < s.len() ==> is_digit(#[trigger] s[i], base)
}

/// The value of a digit string, most significant digit first.
pub open spec fn seq_val(s: Seq<char>, base: nat) -> int
    decreases s.len(),
{
    if s.len() == 0 {
        0
    } else {
        seq_val(s.drop_last(), base) * base + digit_val(s.last())
    }
}

/// The canonical numeral of `n` in radix `base`: no leading zero, lowercase.
pub open spec fn spec_radix(n: nat, base: nat) -> Seq<char>
    decreases n,
    when 2 <= base <= 16
    via spec_radix_decreases
{
    if n < base {
        seq![digit_char(n)]
    } else {
        spec_radix(n / base, base).push(digit_char(n % base))
    }
}

#[via_fn]
proof fn spec_radix_decreases(n: nat, base: nat) {
    if n >= base {
        lemma_div_is_strictly_smaller(n as int, base as int);
    }
}

proof fn lemma_digit_char_val(d: nat)
    requires
        d < 16,
    ensures
        digit_val(digit_char(d)) == d,
        is_digit(digit_char(d), (d + 1) as nat),
{
}

/// A digit character is the canonical character of its own value.
proof fn lemma_char_digit(c: char)
    requires
        is_digit(c, 16),
    ensures
        digit_char(digit_val(c) as nat) == c,
{
    let u = c as u32;
    let d = digit_val(c);
    let c2 = digit_char(d as nat);
    assert(c2 as u32 == u);
    char_u32_cast(c, u);
    char_u32_cast(c2, u);
}

proof fn lemma_seq_val_single(c: char, base: nat)
    ensures
        seq_val(seq![c], base) == digit_val(c),
{
    let s = seq![c];
    assert(s.drop_last() =~= Seq::<char>::empty());
    assert(seq_val(Seq::<char>::empty(), base) == 0);
    assert(seq_val(s, base) == seq_val(s.drop_last(), base) * base + digit_val(c));
}

/// The canonical numeral: nonempty, all digits, no leading zero, value `n`.
pub proof fn lemma_radix_shape(n: nat, base: nat)
    requires
        2 <= base <= 16,
    ensures
        spec_radix(n, base).len() >= 1,
        all_digits(spec_radix(n, base), base),
        seq_val(spec_radix(n, base), base) == n,
        n >= 1 ==> spec_radix(n, base)[0] != '0',
        spec_radix(n, base).len() > 1 ==> n >= base,
    decreases n,
{
    if n < base {
        lemma_digit_char_val(n);
        assert(spec_radix(n, base) == seq![digit_char(n)]);
        lemma_seq_val_single(digit_char(n), base);
    } else {
        let q = n / base;
        let r = n % base;
        lemma_fundamental_div_mod(n as int, base as int);
        lemma_div_is_strictly_smaller(n as int, base as int);
        assert(0 <= r < base);
        lemma_radix_shape(q as nat, base);
        lemma_digit_char_val(r as nat);
        let s = spec_radix(n, base);
        let sq = spec_radix(q as nat, base);
        assert(s == sq.push(digit_char(r as nat)));
        assert(s.drop_last() =~= sq);
        assert(all_digits(s, base)) by {
            assert(forall|i: int| 0 <= i < sq.len() ==> s[i] == sq[i]);
        }
        assert(seq_val(s, base) == seq_val(sq, base) * base + digit_val(s.last()));
        assert(seq_val(s, base) == q * base + r);
        lemma_div_non_zero(n as int, base as int);
        assert(q >= 1);
        assert(s[0] == sq[0]);
    }
}

proof fn lemma_seq_val_nonneg(s: Seq<char>, base: nat)
    requires
        all_digits(s, base),
    ensures
        seq_val(s, base) >= 0,
    decreases s.len(),
{
    if s.len() > 0 {
        assert(all_digits(s.drop_last(), base));
        lemma_seq_val_nonneg(s.drop_last(), base);
        assert(seq_val(s.drop_last(), base) * base >= 0) by (nonlinear_arith)
            requires
                seq_val(s.drop_last(), base) >= 0,
                base >= 0,
        ;
    }
}

/// A nonempty digit string without a leading zero is the canonical numeral
/// of its own value.
pub proof fn lemma_canonical_to_radix(s: Seq<char>, base: nat)
    requires
        2 <= base <= 16,
        s.len() >= 1,
        all_digits(s, base),
        s.len() > 1 ==> s[0] != '0',
    ensures
        seq_val(s, base) >= 0,
        s == spec_radix(seq_val(s, base) as nat, base),
        s[0] != '0' ==> seq_val(s, base) >= 1,
    decreases s.len(),
{
    lemma_seq_val_nonneg(s, base);
    if s.len() == 1 {
        let d = digit_val(s[0]);
        assert(s =~= seq![s[0]]);
        lemma_seq_val_single(s[0], base);
        assert(seq_val(s, base) == d);
        assert(spec_radix(d as nat, base) == seq![digit_char(d as nat)]);
        lemma_char_digit(s[0]);
        assert(digit_char(d as nat) == s[0]);
        assert(s =~= seq![digit_char(d as nat)]);
        if s[0] != '0' {
            assert(d >= 1) by {
                assert(digit_char(0) == '0');
            }
        }
    } else {
        let sp = s.drop_last();
        let d = digit_val(s.last());
        assert(all_digits(sp, base)) by {
            assert(forall|i: int| 0 <= i < sp.len() ==> sp[i] == s[i]);
        }
        assert(sp[0] == s[0]);
        lemma_canonical_to_radix(sp, base);
        let vp = seq_val(sp, base);
        assert(vp >= 1);
        let n = seq_val(s, base);
        assert(n == vp * base + d);
        assert(n >= base) by (nonlinear_arith)
            requires
                n == vp * base + d,
                vp >= 1,
                d >= 0,
                base >= 2,
        ;
        lemma_fundamental_div_mod_converse_div(n, base as int, vp, d);
        lemma_fundamental_div_mod_converse_mod(n, base as int, vp, d);
        assert(n / base as int == vp);
        assert(n % base as int == d);
        lemma_char_digit(s.last());
        assert(spec_radix(n as nat, base) == spec_radix(vp as nat, base).push(digit_char(d as nat)));
        assert(digit_char(d as nat) == s.last());
        assert(s =~= sp.push(s.last()));
    }
}

/// The value of a digit string never drops when digits are appended.
proof fn lemma_seq_val_prefix(s: Seq<char>, base: nat, k: int)
    requires
        2 <= base <= 16,
        all_digits(s, base),
        0 <= k <= s.len(),
    ensures
        seq_val(s.subrange(0, k), base) <= seq_val(s, base),
    decreases s.len() - k,
{
    if k == s.len() {
        assert(s.subrange(0, k) =~= s);
    } else {
        let t = s.subrange(0, k + 1);
        assert(t.drop_last() =~= s.subrange(0, k));
        assert(all_digits(t, base)) by {
            assert(forall|i: int| 0 <= i < t.len() ==> t[i] == s[i]);
        }
        lemma_seq_val_nonneg(t.drop_last(), base);
        let v = seq_val(t.drop_last(), base);
        assert(seq_val(t, base) == v * base + digit_val(t.last()));
        assert(v * base >= v) by (nonlinear_arith)
            requires
                v >= 0,
                base >= 2,
        ;
        lemma_seq_val_prefix(s, base, k + 1);
    }
}

/// Exec digit lookup mirroring `digit_val`.
fn digit_of(c: char, base: u32) -> (r: Option<u32>)
    requires
        2 <= base <= 16,
    ensures
        r matches Some(v) ==> is_digit(c, base as nat) && v == digit_val(c) && v < base,
        r is None ==> !is_digit(c, base as nat),
{
    let u = c as u32;
    if 48 <= u && u < 58 {
        let v = u - 48;
        if v < base {
            Some(v)
        } else {
            None
        }
    } else if 97 <= u && u < 103 {
        let v = u - 87;
        if v < base {
            Some(v)
        } else {
            None
        }
    } else {
        None
    }
}

/// Exec digit formatting mirroring `digit_char`.
fn char_of_digit(d: u32) -> (c: char)
    requires
        d < 16,
    ensures
        c == digit_char(d as nat),
{
    if d < 10 {
        ((48 + d) as u8) as char
    } else {
        ((87 + d) as u8) as char
    }
}

/// Formats `n` as its canonical numeral in radix `base`.
pub fn format_num(n: u32, base: u32) -> (r: Vec<char>)
    requires
        2 <= base <= 16,
    ensures
        r@ == spec_radix(n as nat, base as nat),
{
    let mut out: Vec<char> = Vec::new();
    if n == 0 {
        out.push(char_of_digit(0));
        assert(out@ =~= spec_radix(0, base as nat));
        return out;
    }
    let mut cur: u32 = n;
    while cur > 0
        invariant
            2 <= base <= 16,
            n > 0,
            cur > 0 ==> spec_radix(n as nat, base as nat) == spec_radix(
                cur as nat,
                base as nat,
            ) + out@,
            cur == 0 ==> spec_radix(n as nat, base as nat) == out@,
        decreases cur,
    {
        let d = cur % base;
        let next = cur / base;
        proof {
            lemma_fundamental_div_mod(cur as int, base as int);
            lemma_div_is_strictly_smaller(cur as int, base as int);
            if cur >= base {
                lemma_div_non_zero(cur as int, base as int);
                assert(spec_radix(cur as nat, base as nat) == spec_radix(
                    next as nat,
                    base as nat,
                ).push(digit_char(d as nat)));
            } else {
                assert(next == 0) by {
                    lemma_fundamental_div_mod_converse_div(cur as int, base as int, 0, cur as int);
                }
                assert(d == cur) by {
                    lemma_fundamental_div_mod_converse_mod(cur as int, base as int, 0, cur as int);
                }
                assert(spec_radix(cur as nat, base as nat) == seq![digit_char(d as nat)]);
            }
        }
        let ghost old_out = out@;
        out.insert(0, char_of_digit(d));
        proof {
            assert(out@ =~= seq![digit_char(d as nat)] + old_out);
            if cur >= base {
                assert(spec_radix(cur as nat, base as nat) + old_out =~= spec_radix(
                    next as nat,
                    base as nat,
                ) + out@);
            } else {
                assert(spec_radix(cur as nat, base as nat) + old_out =~= out@);
            }
        }
        cur = next;
    }
    out
}

/// Parses the canonical numeral in `s[from..to]`; `Some(v)` exactly when
/// that range is `spec_radix(v, base)` for some `v <= bound`.
pub fn parse_num(s: &Vec<char>, from: usize, to: usize, base: u32, bound: u32) -> (r: Option<u32>)
    requires
        from <= to <= s@.len(),
        2 <= base <= 16,
        bound <= 0xffff,
    ensures
        r matches Some(v) ==> v <= bound && s@.subrange(from as int, to as int) == spec_radix(
            v as nat,
            base as nat,
        ),
        r is None ==> forall|v: u32|
            v <= bound ==> s@.subrange(from as int, to as int) != spec_radix(
                v as nat,
                base as nat,
            ),
        r matches Some(v) ==> forall|w: u32|
            s@.subrange(from as int, to as int) == spec_radix(w as nat, base as nat) ==> w == v,
{
    let ghost sub = s@.subrange(from as int, to as int);
    proof {
        assert forall|v: u32| sub == spec_radix(v as nat, base as nat) implies all_digits(
            sub,
            base as nat,
        ) && sub.len() >= 1 && seq_val(sub, base as nat) == v && (sub.len() > 1 ==> sub[0]
            != '0') by {
            lemma_radix_shape(v as nat, base as nat);
        }
    }
    if to == from {
        return None;
    }
    if to - from > 1 && s[from] == '0' {
        proof {
            assert forall|v: u32| v <= bound implies sub != spec_radix(v as nat, base as nat) by {
                if sub == spec_radix(v as nat, base as nat) {
                    lemma_radix_shape(v as nat, base as nat);
                    assert(v >= 1 ==> sub[0] != '0');
                    assert(v == 0 ==> sub.len() == 1);
                }
            }
        }
        return None;
    }
    let mut acc: u32 = 0;
    let mut i: usize = from;
    while i < to
        invariant
            from <= i <= to <= s@.len(),
            2 <= base <= 16,
            bound <= 0xffff,
            to > from,
            acc <= bound,
            sub == s@.subrange(from as int, to as int),
            all_digits(s@.subrange(from as int, i as int), base as nat),
            seq_val(s@.subrange(from as int, i as int), base as nat) == acc,
            i > from ==> (s@[from as int] != '0' || i - from == 1),
            to - from > 1 ==> s@[from as int] != '0',
        decreases to - i,
    {
        let ghost pre = s@.subrange(from as int, i as int);
        let c = s[i];
        match digit_of(c, base) {
            None => {
                proof {
                    assert forall|v: u32| v <= bound implies sub != spec_radix(
                        v as nat,
                        base as nat,
                    ) by {
                        if sub == spec_radix(v as nat, base as nat) {
                            lemma_radix_shape(v as nat, base as nat);
                            assert(is_digit(sub[i - from], base as nat));
                            assert(sub[i - from] == c);
                        }
                    }
                }
                return None;
            },
            Some(d) => {
                proof {
                    assert(acc * base <= 0xffff * 16) by (nonlinear_arith)
                        requires
                            acc <= 0xffff,
                            0 <= base <= 16,
                    ;
                }
                let next = acc * base + d;
                proof {
                    let cur = s@.subrange(from as int, i as int + 1);
                    assert(cur.drop_last() =~= pre);
                    assert(cur.last() == c);
                    assert(seq_val(cur, base as nat) == acc * base + d);
                    assert(all_digits(cur, base as nat)) by {
                        assert(forall|j: int| 0 <= j < pre.len() ==> cur[j] == pre[j]);
                    }
                }
                if next > bound {
                    proof {
                        assert forall|v: u32| v <= bound implies sub != spec_radix(
                            v as nat,
                            base as nat,
                        ) by {
                            if sub == spec_radix(v as nat, base as nat) {
                                lemma_radix_shape(v as nat, base as nat);
                                let cur = s@.subrange(from as int, i as int + 1);
                                assert(cur =~= sub.subrange(0, i - from + 1));
                                lemma_seq_val_prefix(sub, base as nat, i - from + 1);
                                assert(seq_val(cur, base as nat) <= v);
                            }
                        }
                    }
                    return None;
                }
                acc = next;
                i += 1;
            },
        }
    }
    proof {
        assert(s@.subrange(from as int, i as int) =~= sub);
        lemma_canonical_to_radix(sub, base as nat);
        assert(sub == spec_radix(acc as nat, base as nat));
    }
    Some(acc)
}

pub open spec fn all_le(vs: Seq<u32>, bound: u32) -> bool {
    forall|i: int| 0 <= i < vs.len() ==> #[trigger] vs[i] <= bound
}

/// The canonical form of `vs` as numerals joined by `sep`.
pub open spec fn spec_join(vs: Seq<u32>, sep: char, base: nat) -> Seq<char>
    decreases vs.len(),
{
    if vs.len() == 0 {
        Seq::empty()
    } else if vs.len() == 1 {
        spec_radix(vs[0] as nat, base)
    } else {
        spec_radix(vs[0] as nat, base) + seq![sep] + spec_join(vs.skip(1), sep, base)
    }
}

/// In a joined form, the leading numeral is separator-free and, when more
/// groups follow, the first separator stands right after it.
pub(crate) proof fn lemma_join_head(vs: Seq<u32>, sep: char, base: nat)
    requires
        2 <= base <= 16,
        !is_digit(sep, base),
        vs.len() >= 1,
    ensures
        spec_join(vs, sep, base).len() >= spec_radix(vs[0] as nat, base).len(),
        forall|j: int|
            0 <= j < spec_radix(vs[0] as nat, base).len() ==> #[trigger] spec_join(vs, sep, base)[j]
                == spec_radix(vs[0] as nat, base)[j] && spec_join(vs, sep, base)[j] != sep,
        vs.len() >= 2 ==> spec_join(vs, sep, base).len() == spec_radix(vs[0] as nat, base).len() + 1
            + spec_join(vs.skip(1), sep, base).len() && spec_join(vs, sep, base)[spec_radix(
            vs[0] as nat,
            base,
        ).len() as int] == sep,
        vs.len() == 1 ==> spec_join(vs, sep, base) == spec_radix(vs[0] as nat, base),
        vs.len() >= 2 ==> forall|j: int|
            spec_radix(vs[0] as nat, base).len() < j < spec_join(vs, sep, base).len()
                ==> #[trigger] spec_join(vs, sep, base)[j] == spec_join(vs.skip(1), sep, base)[j
                - spec_radix(vs[0] as nat, base).len() - 1],
{
    lemma_radix_shape(vs[0] as nat, base);
    let r0 = spec_radix(vs[0] as nat, base);
    assert(forall|j: int| 0 <= j < r0.len() ==> is_digit(#[trigger] r0[j], base));
    if vs.len() >= 2 {
        assert(spec_join(vs, sep, base) == r0 + seq![sep] + spec_join(vs.skip(1), sep, base));
    }
}

/// Every character of a joined form is a digit of the radix or the separator.
pub proof fn lemma_join_chars(vs: Seq<u32>, sep: char, base: nat)
    requires
        2 <= base <= 16,
    ensures
        forall|j: int|
            0 <= j < spec_join(vs, sep, base).len() ==> is_digit(
                #[trigger] spec_join(vs, sep, base)[j],
                base,
            ) || spec_join(vs, sep, base)[j] == sep,
    decreases vs.len(),
{
    if vs.len() == 1 {
        lemma_radix_shape(vs[0] as nat, base);
    } else if vs.len() >= 2 {
        lemma_radix_shape(vs[0] as nat, base);
        lemma_join_chars(vs.skip(1), sep, base);
        assert(spec_join(vs, sep, base) == spec_radix(vs[0] as nat, base) + seq![sep] + spec_join(
            vs.skip(1),
            sep,
            base,
        ));
    }
}

/// Two group sequences of one length with the same joined form are equal.
pub proof fn lemma_join_injective(vs: Seq<u32>, ws: Seq<u32>, sep: char, base: nat)
    requires
        2 <= base <= 16,
        !is_digit(sep, base),
        vs.len() == ws.len() >= 1,
        spec_join(vs, sep, base) == spec_join(ws, sep, base),
    ensures
        vs == ws,
    decreases vs.len(),
{
    let j = spec_join(vs, sep, base);
    let rv = spec_radix(vs[0] as nat, base);
    let rw = spec_radix(ws[0] as nat, base);
    lemma_join_head(vs, sep, base);
    lemma_join_head(ws, sep, base);
    lemma_radix_shape(vs[0] as nat, base);
    lemma_radix_shape(ws[0] as nat, base);
    if vs.len() == 1 {
        assert(rv == rw);
        assert(seq_val(rv, base) == seq_val(rw, base));
        assert(vs[0] == ws[0]);
        assert(vs =~= ws);
    } else {
        assert(rv.len() == rw.len()) by {
            if rv.len() < rw.len() {
                assert(j[rv.len() as int] == sep);
                assert(j[rv.len() as int] == rw[rv.len() as int]);
                assert(is_digit(rw[rv.len() as int], base));
            }
            if rw.len() < rv.len() {
                assert(j[rw.len() as int] == sep);
                assert(j[rw.len() as int] == rv[rw.len() as int]);
                assert(is_digit(rv[rw.len() as int], base));
            }
        }
        assert(rv =~= rw) by {
            assert(forall|i: int| 0 <= i < rv.len() ==> #[trigger] rv[i] == j[i] && j[i] == rw[i]);
        }
        assert(seq_val(rv, base) == seq_val(rw, base));
        assert(vs[0] == ws[0]);
        let tv = spec_join(vs.skip(1), sep, base);
        let tw = spec_join(ws.skip(1), sep, base);
        assert(tv =~= tw) by {
            assert(tv.len() == tw.len());
            assert(forall|i: int|
                0 <= i < tv.len() ==> #[trigger] tv[i] == j[rv.len() + 1 + i] && #[trigger] tw[i]
                    == j[rv.len() + 1 + i]);
        }
        lemma_join_injective(vs.skip(1), ws.skip(1), sep, base);
        assert(vs =~= ws) by {
            assert(forall|i: int| 1 <= i < vs.len() ==> #[trigger] vs[i] == vs.skip(1)[i - 1]);
            assert(forall|i: int| 1 <= i < ws.len() ==> #[trigger] ws[i] == ws.skip(1)[i - 1]);
        }
    }
}

/// Parses `count` separator-joined numerals from `s[from..to]`; `Some(vs)`
/// exactly when that range is `spec_join(vs, sep, base)` with every group
/// at most `bound`.
pub fn parse_groups(
    s: &Vec<char>,
    from: usize,
    to: usize,
    sep: char,
    base: u32,
    bound: u32,
    count: usize,
) -> (r: Option<Vec<u32>>)
    requires
        from <= to <= s@.len(),
        2 <= base <= 16,
        bound <= 0xffff,
        !is_digit(sep, base as nat),
        1 <= count <= 16,
    ensures
        r matches Some(vs) ==> vs@.len() == count && all_le(vs@, bound) && s@.subrange(
            from as int,
            to as int,
        ) == spec_join(vs@, sep, base as nat),
        r is None ==> forall|vs: Seq<u32>|
            vs.len() == count && all_le(vs, bound) ==> s@.subrange(from as int, to as int)
                != spec_join(vs, sep, base as nat),
    decreases count,
{
    let ghost sub = s@.subrange(from as int, to as int);
    if count == 1 {
        match parse_num(s, from, to, base, bound) {
            Some(v) => {
                let mut out: Vec<u32> = Vec::new();
                out.push(v);
                proof {
                    assert(out@ =~= seq![v]);
                    assert(spec_join(out@, sep, base as nat) == spec_radix(v as nat, base as nat));
                }
                Some(out)
            },
            None => {
                proof {
                    assert forall|vs: Seq<u32>|
                        vs.len() == count && all_le(vs, bound) implies sub != spec_join(
                        vs,
                        sep,
                        base as nat,
                    ) by {
                        assert(vs[0] <= bound);
                        assert(spec_join(vs, sep, base as nat) == spec_radix(
                            vs[0] as nat,
                            base as nat,
                        ));
                    }
                }
                None
            },
        }
    } else {
        let idx = find_char(s, from, to, sep);
        proof {
            assert forall|vs: Seq<u32>|
                vs.len() == count && all_le(vs, bound) && sub == spec_join(vs, sep, base as nat)
                    implies {
                    let r0 = spec_radix(vs[0] as nat, base as nat);
                    &&& idx == from + r0.len()
                    &&& idx < to
                    &&& s@.subrange(from as int, from + r0.len()) == r0
                } by {
                lemma_join_head(vs, sep, base as nat);
                let r0 = spec_radix(vs[0] as nat, base as nat);
                let p = from + r0.len();
                assert(sub.len() == to - from);
                assert(p < to);
                assert(sub[r0.len() as int] == sep);
                assert(s@[p as int] == sep) by {
                    assert(s@[p as int] == sub[r0.len() as int]);
                }
                assert(forall|j: int|
                    from <= j < p ==> #[trigger] s@[j] == sub[j - from] && sub[j - from] == r0[j
                        - from] && s@[j] != sep);
                assert(idx == p);
                assert(s@.subrange(from as int, p as int) =~= r0);
            }
        }
        if idx == to {
            return None;
        }
        match parse_num(s, from, idx, base, bound) {
            None => {
                proof {
                    assert forall|vs: Seq<u32>|
                        vs.len() == count && all_le(vs, bound) implies sub != spec_join(
                        vs,
                        sep,
                        base as nat,
                    ) by {
                        if sub == spec_join(vs, sep, base as nat) {
                            assert(vs[0] <= bound);
                            assert(s@.subrange(from as int, idx as int) == spec_radix(
                                vs[0] as nat,
                                base as nat,
                            ));
                        }
                    }
                }
                None
            },
            Some(v0) => {
                match parse_groups(s, idx + 1, to, sep, base, bound, count - 1) {
                    None => {
                        proof {
                            assert forall|vs: Seq<u32>|
                                vs.len() == count && all_le(vs, bound) implies sub != spec_join(
                                vs,
                                sep,
                                base as nat,
                            ) by {
                                if sub == spec_join(vs, sep, base as nat) {
                                    lemma_join_head(vs, sep, base as nat);
                                    let r0 = spec_radix(vs[0] as nat, base as nat);
                                    assert(s@.subrange(from as int, idx as int) == r0);
                                    assert(vs[0] == v0);
                                    let tail = spec_join(vs.skip(1), sep, base as nat);
                                    assert(s@.subrange(idx + 1, to as int) =~= tail) by {
                                        assert(forall|j: int|
                                            0 <= j < tail.len() ==> #[trigger] tail[j] == sub[
                                            r0.len() + 1 + j] && sub[r0.len() + 1 + j] == s@[idx + 1
                                                + j]);
                                    }
                                    assert(vs.skip(1).len() == count - 1);
                                    assert(all_le(vs.skip(1), bound)) by {
                                        assert(forall|i: int|
                                            0 <= i < vs.skip(1).len() ==> #[trigger] vs.skip(1)[i]
                                                == vs[i + 1]);
                                    }
                                }
                            }
                        }
                        None
                    },
                    Some(mut rest) => {
                        let ghost old_rest = rest@;
                        rest.insert(0, v0);
                        proof {
                            assert(rest@ =~= seq![v0] + old_rest);
                            assert(rest@.skip(1) =~= old_rest);
                            assert(rest@.len() == count);
                            assert(all_le(rest@, bound)) by {
                                assert(forall|i: int|
                                    1 <= i < rest@.len() ==> #[trigger] rest@[i] == old_rest[i
                                        - 1]);
                            }
                            let r0 = spec_radix(v0 as nat, base as nat);
                            let tail = spec_join(old_rest, sep, base as nat);
                            assert(spec_join(rest@, sep, base as nat) == r0 + seq![sep] + tail);
                            assert(s@.subrange(from as int, idx as int) == r0);
                            assert(s@.subrange(idx + 1, to as int) == tail);
                            assert(sub =~= r0 + seq![sep] + tail) by {
                                assert(sub.len() == (to - from) as int);
                                assert(r0.len() == idx - from);
                                assert(forall|j: int|
                                    0 <= j < r0.len() ==> #[trigger] sub[j] == s@[from + j] && s@[
                                    from + j] == r0[j]);
                                assert(sub[idx - from] == s@[idx as int]);
                                assert(forall|j: int|
                                    0 <= j < tail.len() ==> #[trigger] tail[j] == s@[idx + 1 + j]
                                        && sub[idx - from + 1 + j] == s@[idx + 1 + j]);
                            }
                        }
                        Some(rest)
                    },
                }
            },
        }
    }
}

/// The characters of `s`, in order.
pub fn str_chars(s: &str) -> (r: Vec<char>)
    ensures
        r@ == s@,
{
    let n = s.unicode_len();
    let mut out: Vec<char> = Vec::new();
    let mut i: usize = 0;
    while i < n
        invariant
            i <= n,
            n == s@.len(),
            out@ == s@.subrange(0, i as int),
        decreases n - i,
    {
        let c = s.get_char(i);
        out.push(c);
        proof {
            assert(out@ =~= s@.subrange(0, i + 1));
        }
        i += 1;
    }
    proof {
        assert(s@.subrange(0, n as int) =~= s@);
    }
    out
}

/// Relies on `String`'s `FromIterator` over `char`: collecting characters
/// yields the string of exactly those characters.
#[verifier::external_body]
pub(crate) fn chars_to_string(v: &Vec<char>) -> (r: String)
    ensures
        r@ == v@,
{
    v.iter().collect()
}

/// The first position of `c` in `s[from..to]`, or `to` when absent.
pub fn find_char(s: &Vec<char>, from: usize, to: usize, c: char) -> (r: usize)
    requires
        from <= to <= s@.len(),
    ensures
        from <= r <= to,
        forall|j: int| from <= j < r ==> s@[j] != c,
        r < to ==> s@[r as int] == c,
{
    let mut i: usize = from;
    while i < to
        invariant
            from <= i <= to <= s@.len(),
            forall|j: int| from <= j < i ==> s@[j] != c,
        decreases to - i,
    {
        if s[i] == c {
            return i;
        }
        i += 1;
    }
    to
}

} // verus!
