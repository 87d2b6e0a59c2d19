//! Decoding of OPL text: the `%`-hexadecimal-`%` unescaping that OPL fields
//! use, and its round trip with the writer's escaping.

use vstd::prelude::*;

use crate::text::{
    char_from_u32, chars_to_string, parse_hex_u32, spec_char_from_u32, spec_hex_digit,
    spec_hex_of, spec_parse_hex_u32, str_to_chars,
};
use crate::writers::opl::{spec_escape, spec_escape_char, spec_should_escape};

verus! {

/// The first index at or past `i` holding `%`, or the text's length.
pub open spec fn find_pct(cs: Seq<char>, i: int) -> int
    decreases cs.len() - i,
{
    if i < 0 || i >= cs.len() {
        cs.len() as int
    } else if cs[i] == '%' {
        i
    } else {
        find_pct(cs, i + 1)
    }
}

/// `find_pct` stays within the text, never moves backwards, finds a `%`, and
/// skips nothing but other characters.
pub proof fn lemma_find_pct_bounds(cs: Seq<char>, i: int)
    requires
        0 <= i <= cs.len(),
    ensures
        i <= find_pct(cs, i) <= cs.len(),
        find_pct(cs, i) < cs.len() ==> cs[find_pct(cs, i)] == '%',
        forall|k: int| i <= k < find_pct(cs, i) ==> cs[k] != '%',
    decreases cs.len() - i,
{
    if i < cs.len() && cs[i] != '%' {
        lemma_find_pct_bounds(cs, i + 1);
    }
}

/// Where every character before `j` differs from `%` and `cs[j]` is `%`,
/// the search finds `j`.
pub proof fn lemma_find_pct_found(cs: Seq<char>, i: int, j: int)
    requires
        0 <= i <= j <= cs.len(),
        forall|k: int| i <= k < j ==> cs[k] != '%',
        j == cs.len() || cs[j] == '%',
    ensures
        find_pct(cs, i) == if j == cs.len() {
            cs.len() as int
        } else {
            j
        },
    decreases j - i,
{
    if i < j {
        lemma_find_pct_found(cs, i + 1, j);
    }
}

/// What one escape body adds to the output: the character of the code point
/// it reads, or nothing when it reads none or an invalid one.
pub open spec fn spec_unescape_piece(hex: Seq<char>) -> Seq<char> {
    match spec_parse_hex_u32(hex) {
        Option::Some(cp) => match spec_char_from_u32(cp) {
            Option::Some(c) => seq![c],
            Option::None => Seq::empty(),
        },
        Option::None => Seq::empty(),
    }
}

/// The unescaping of `cs`: a `%` opens an escape running to the next `%` (or
/// the text's end), whose body is read as a hexadecimal code point; every
/// other character passes through.  A malformed or invalid escape adds
/// nothing.
pub open spec fn spec_unescape(cs: Seq<char>) -> Seq<char>
    decreases cs.len(),
{
    if cs.len() == 0 {
        Seq::empty()
    } else if cs[0] == '%' {
        let j = find_pct(cs, 1);
        let j1 = if 1 <= j <= cs.len() {
            j
        } else {
            1
        };
        let nxt = if j1 + 1 <= cs.len() {
            j1 + 1
        } else {
            cs.len() as int
        };
        spec_unescape_piece(cs.subrange(1, j1)) + spec_unescape(cs.skip(nxt))
    } else {
        seq![cs[0]] + spec_unescape(cs.drop_first())
    }
}

/// `find_pct` through a shifted window.
proof fn lemma_find_pct_shift(cs: Seq<char>, i: int, k: int)
    requires
        0 <= i,
        0 <= k,
        i + k <= cs.len(),
    ensures
        find_pct(cs.skip(i as int), k) == if find_pct(cs, i + k) == cs.len() {
            cs.skip(i as int).len() as int
        } else {
            find_pct(cs, i + k) - i
        },
    decreases cs.len() - (i + k),
{
    lemma_find_pct_bounds(cs, i + k);
    if i + k < cs.len() {
        assert(cs.skip(i as int)[k] == cs[i + k]);
        if cs[i + k] != '%' {
            lemma_find_pct_shift(cs, i, k + 1);
        }
    }
}

/// The next `%` at or past `i`, or the text's length.
fn find_pct_exec(cs: &Vec<char>, i: usize) -> (r: usize)
    requires
        i <= cs@.len(),
    ensures
        r as int == find_pct(cs@, i as int),
        i <= r <= cs@.len(),
{
    proof {
        lemma_find_pct_bounds(cs@, i as int);
    }
    let mut j: usize = i;
    while j < cs.len()
        invariant
            i <= j <= cs@.len(),
            find_pct(cs@, i as int) == find_pct(cs@, j as int),
        decreases cs@.len() - j,
    {
        if cs[j] == '%' {
            return j;
        }
        j = j + 1;
    }
    j
}

/// Unescapes `input`, exactly as `spec_unescape` gives it.
#[verifier::loop_isolation(false)]
pub fn unescape_str(input: &str) -> (r: String)
    ensures
        r@ == spec_unescape(input@),
{
    let cs = str_to_chars(input);
    let mut out: Vec<char> = Vec::new();
    let mut i: usize = 0;
    proof {
        assert(cs@.skip(0) =~= cs@);
        assert(out@ + spec_unescape(cs@) =~= spec_unescape(cs@));
    }
    while i < cs.len()
        invariant
            i <= cs@.len(),
            spec_unescape(cs@) == out@ + spec_unescape(cs@.skip(i as int)),
        decreases cs@.len() - i,
    {
        let ghost out0 = out@;
        let ghost rest = cs@.skip(i as int);
        proof {
            assert(rest[0] == cs@[i as int]);
        }
        if cs[i] == '%' {
            let j = find_pct_exec(&cs, i + 1);
            proof {
                lemma_find_pct_shift(cs@, i as int, 1);
                lemma_find_pct_bounds(cs@, i + 1);
            }
            let ghost sj = find_pct(rest, 1);
            let ghost sj1: int = if 1 <= sj <= rest.len() {
                sj
            } else {
                1
            };
            proof {
                assert(sj1 == j - i);
                assert(rest.subrange(1, sj1) =~= cs@.subrange(i + 1, j as int));
            }
            match parse_hex_u32(&cs, i + 1, j) {
                Option::Some(cp) => {
                    match char_from_u32(cp) {
                        Option::Some(c) => {
                            out.push(c);
                            proof {
                                assert(out@ =~= out0 + spec_unescape_piece(rest.subrange(1, sj1)));
                            }
                        },
                        Option::None => {
                            proof {
                                assert(out@ =~= out0 + spec_unescape_piece(rest.subrange(1, sj1)));
                            }
                        },
                    }
                },
                Option::None => {
                    proof {
                        assert(out@ =~= out0 + spec_unescape_piece(rest.subrange(1, sj1)));
                    }
                },
            }
            let nxt: usize = if j < cs.len() {
                j + 1
            } else {
                cs.len()
            };
            proof {
                let snxt: int = if sj1 + 1 <= rest.len() {
                    sj1 + 1
                } else {
                    rest.len() as int
                };
                assert(rest.skip(snxt) =~= cs@.skip(nxt as int));
                assert(spec_unescape(rest) == spec_unescape_piece(rest.subrange(1, sj1))
                    + spec_unescape(rest.skip(snxt)));
                assert(out0 + spec_unescape(rest) =~= out@ + spec_unescape(cs@.skip(nxt as int)));
            }
            i = nxt;
        } else {
            out.push(cs[i]);
            proof {
                assert(rest.drop_first() =~= cs@.skip(i + 1));
                assert(out@ =~= out0.push(rest[0]));
                assert(out0 + spec_unescape(rest) =~= out@ + spec_unescape(cs@.skip(i + 1)));
            }
            i = i + 1;
        }
    }
    proof {
        assert(spec_unescape(cs@.skip(cs@.len() as int)) =~= Seq::<char>::empty());
        assert(out@ + Seq::<char>::empty() =~= out@);
    }
    chars_to_string(&out)
}

/// Every character of a hexadecimal numeral is a hexadecimal digit.
proof fn lemma_hex_of_digits(n: nat, k: int)
    requires
        0 <= k < spec_hex_of(n).len(),
    ensures
        spec_hex_digit(spec_hex_of(n)[k]) is Some,
        spec_hex_of(n)[k] != '%',
    decreases n,
{
    if n >= 16 {
        if k < spec_hex_of(n / 16).len() {
            lemma_hex_of_digits(n / 16, k);
            assert(spec_hex_of(n)[k] == spec_hex_of(n / 16)[k]);
        }
    }
}

/// Reading back a written hexadecimal numeral yields the number.
proof fn lemma_hex_round_trip(n: nat)
    requires
        n <= u32::MAX,
    ensures
        spec_parse_hex_u32(spec_hex_of(n)) == Option::Some(n as u32),
    decreases n,
{
    let s = spec_hex_of(n);
    if n < 16 {
        assert(s.len() == 1);
    } else {
        lemma_hex_round_trip(n / 16);
        assert(s.drop_last() =~= spec_hex_of(n / 16));
        assert(spec_hex_digit(s[s.len() - 1]) == Option::Some((n % 16) as u32));
    }
}

/// Unescaping undoes escaping: for every string, the OPL escape of its
/// characters unescapes to exactly those characters.
pub proof fn lemma_unescape_escape(s: Seq<char>)
    ensures
        spec_unescape(spec_escape(s)) == s,
    decreases s.len(),
{
    if s.len() == 0 {
        assert(spec_unescape(spec_escape(s)) =~= s);
    } else {
        let c = s[0];
        let rest = spec_escape(s.drop_first());
        lemma_unescape_escape(s.drop_first());
        if spec_should_escape(c) {
            vstd::utf8::char_is_scalar(c);
            vstd::utf8::char_u32_cast(c, c as u32);
            assert(c as u32 <= 0x10FFFF && c as nat == (c as u32) as nat);
            let hex = spec_hex_of(c as nat);
            let e = spec_escape_char(c) + rest;
            assert(spec_escape(s) == e);
            assert(e[0] == '%');
            assert forall|k: int| 1 <= k < 1 + hex.len() as int implies e[k] != '%' by {
                assert(e[k] == hex[k - 1]);
                lemma_hex_of_digits(c as nat, k - 1);
            }
            assert(e[1 + hex.len() as int] == '%');
            lemma_find_pct_found(e, 1, 1 + hex.len() as int);
            let j = find_pct(e, 1);
            assert(j == 1 + hex.len() as int);
            assert(e.subrange(1, j) =~= hex);
            lemma_hex_round_trip(c as nat);
            assert(spec_char_from_u32(c as u32) == Option::Some(c));
            assert(spec_unescape_piece(hex) =~= seq![c]);
            assert(e.skip(j + 1) =~= rest);
            assert(spec_unescape(e) == spec_unescape_piece(hex) + spec_unescape(rest));
            assert(seq![c] + s.drop_first() =~= s);
        } else {
            let e = seq![c] + rest;
            assert(spec_escape(s) =~= e);
            assert(e[0] == c);
            assert(c != '%') by {
                assert(spec_should_escape('%'));
            }
            assert(e.drop_first() =~= rest);
            assert(spec_unescape(e) == seq![c] + spec_unescape(rest));
            assert(seq![c] + s.drop_first() =~= s);
        }
    }
}

} // verus!

// Decoding whole OPL lines: whitespace-separated fields, each led by a
// one-letter marker, gathered into an element.  Coordinates are read as
// plain decimals into the fixed-point representation.

use crate::elements::{
    tags_set, Element, ElementType, ElementView, ElementTypeView, Member, MemberView,
    SimpleElementType, Tags,
};
use crate::text::{parse_dec_i64, spec_parse_dec_i64, spec_parse_dec_u64};
use crate::filter::lex::chars_subrange;

verus! {

/// The first index at or past `i` holding `c`, or the text's length.
pub open spec fn find_ch(cs: Seq<char>, c: char, i: int) -> int
    decreases cs.len() - i,
{
    if i < 0 || i >= cs.len() {
        cs.len() as int
    } else if cs[i] == c {
        i
    } else {
        find_ch(cs, c, i + 1)
    }
}

/// `find_ch` stays within the text, never moves backwards, and finds `c`.
pub proof fn lemma_find_ch_bounds(cs: Seq<char>, c: char, i: int)
    requires
        0 <= i <= cs.len(),
    ensures
        i <= find_ch(cs, c, i) <= cs.len(),
        find_ch(cs, c, i) < cs.len() ==> cs[find_ch(cs, c, i)] == c,
    decreases cs.len() - i,
{
    if i < cs.len() && cs[i] != c {
        lemma_find_ch_bounds(cs, c, i + 1);
    }
}

/// The next `c` at or past `i`, or the text's length.
fn find_ch_exec(cs: &Vec<char>, c: char, i: usize) -> (r: usize)
    requires
        i <= cs@.len(),
    ensures
        r as int == find_ch(cs@, c, i as int),
        i <= r <= cs@.len(),
{
    proof {
        lemma_find_ch_bounds(cs@, c, i as int);
    }
    let mut j: usize = i;
    while j < cs.len()
        invariant
            i <= j <= cs@.len(),
            find_ch(cs@, c, i as int) == find_ch(cs@, c, j as int),
        decreases cs@.len() - j,
    {
        if cs[j] == c {
            return j;
        }
        j = j + 1;
    }
    j
}

/// A coordinate read as a plain decimal — an optional `-`, whole degrees,
/// and at most seven fraction digits after a point — in ten-millionths of a
/// degree; `None` on any other shape or outside `i64`'s range.
pub open spec fn spec_parse_coord(cs: Seq<char>) -> Option<i64> {
    let neg = cs.len() >= 1 && cs[0] == '-';
    let body = if neg {
        cs.drop_first()
    } else {
        cs
    };
    let dot = find_ch(body, '.', 0);
    let ip = spec_parse_dec_u64(body.take(if 0 <= dot <= body.len() {
        dot
    } else {
        0
    }));
    let fr = if dot >= body.len() {
        Option::Some((0u64, 7nat))
    } else {
        let digits = body.skip(if 0 <= dot + 1 <= body.len() {
            dot + 1
        } else {
            0
        });
        if 1 <= digits.len() <= 7 {
            match spec_parse_dec_u64(digits) {
                Option::Some(f) => Option::Some((f, (7 - digits.len()) as nat)),
                Option::None => Option::None,
            }
        } else {
            Option::None
        }
    };
    match (ip, fr) {
        (Option::Some(whole), Option::Some((f, pad))) => {
            let total = whole * 10_000_000 + f * spec_pow10(pad);
            if total <= i64::MAX {
                Option::Some((if neg {
                    -total
                } else {
                    total
                }) as i64)
            } else {
                Option::None
            }
        },
        _ => Option::None,
    }
}

/// Ten to the `n`th.
pub open spec fn spec_pow10(n: nat) -> nat
    decreases n,
{
    if n == 0 {
        1
    } else {
        10 * spec_pow10((n - 1) as nat)
    }
}

/// Ten to the `n`th, for the seven fraction places.
fn pow10(n: u64) -> (r: u64)
    requires
        n <= 7,
    ensures
        r as nat == spec_pow10(n as nat),
        r <= 10_000_000,
{
    let mut r: u64 = 1;
    let mut i: u64 = 0;
    while i < n
        invariant
            i <= n <= 7,
            r as nat == spec_pow10(i as nat),
            r <= 10_000_000,
        decreases n - i,
    {
        proof {
            assert(spec_pow10((i + 1) as nat) == 10 * spec_pow10(i as nat));
            lemma_pow10_bound(i as nat + 1);
        }
        r = r * 10;
        i = i + 1;
    }
    r
}

/// Ten to at most the seventh stays within the scale.
proof fn lemma_pow10_bound(n: nat)
    requires
        n <= 7,
    ensures
        spec_pow10(n) <= 10_000_000,
{
    lemma_pow10_mono(n, 7);
    lemma_pow10_values();
}

/// Powers of ten grow with the exponent.
proof fn lemma_pow10_mono(a: nat, b: nat)
    requires
        a <= b,
    ensures
        1 <= spec_pow10(a) <= spec_pow10(b),
    decreases b,
{
    if b > 0 {
        if a < b {
            lemma_pow10_mono(a, (b - 1) as nat);
        } else {
            lemma_pow10_mono((a - 1) as nat, (b - 1) as nat);
        }
    }
}

/// A power of ten splits over a sum of exponents.
proof fn lemma_pow10_add(a: nat, b: nat)
    ensures
        spec_pow10(a + b) == spec_pow10(a) * spec_pow10(b),
    decreases a,
{
    if a == 0 {
        assert(spec_pow10(b) == 1 * spec_pow10(b));
    } else {
        lemma_pow10_add((a - 1) as nat, b);
        assert(spec_pow10(a + b) == 10 * spec_pow10((a - 1) as nat + b));
        assert(10 * (spec_pow10((a - 1) as nat) * spec_pow10(b)) == (10 * spec_pow10(
            (a - 1) as nat,
        )) * spec_pow10(b)) by (nonlinear_arith);
    }
}

/// A numeral's value stays below ten to its length.
proof fn lemma_dec_lt_pow(digits: Seq<char>)
    ensures
        spec_parse_dec_u64(digits) is Some ==> (spec_parse_dec_u64(digits)->0 as nat)
            < spec_pow10(digits.len()),
    decreases digits.len(),
{
    if digits.len() > 0 && spec_parse_dec_u64(digits) is Some {
        lemma_dec_lt_pow(digits.drop_last());
        let v = spec_parse_dec_u64(digits)->0 as nat;
        let d = crate::text::spec_dec_digit(digits[digits.len() - 1])->0 as nat;
        if digits.len() == 1 {
            assert(v < 10);
            assert(spec_pow10(1) == 10 * spec_pow10(0));
        } else {
            let hi = spec_parse_dec_u64(digits.drop_last())->0 as nat;
            let q = spec_pow10((digits.len() - 1) as nat);
            assert(v == hi * 10 + d);
            assert(hi < q);
            assert(spec_pow10(digits.len()) == 10 * q);
            assert(hi * 10 + d < 10 * q) by (nonlinear_arith)
                requires
                    hi < q,
                    d < 10,
            ;
        }
    }
}

/// Reads `cs[from..to]` as a coordinate, as `spec_parse_coord` gives it.
#[verifier::rlimit(100)]
pub fn parse_coord(cs: &Vec<char>, from: usize, to: usize) -> (r: Option<i64>)
    requires
        from <= to <= cs@.len(),
    ensures
        r == spec_parse_coord(cs@.subrange(from as int, to as int)),
{
    let ghost whole_seq = cs@.subrange(from as int, to as int);
    let neg = from < to && cs[from] == '-';
    let start: usize = if neg {
        from + 1
    } else {
        from
    };
    let ghost body = if neg {
        whole_seq.drop_first()
    } else {
        whole_seq
    };
    proof {
        assert(body =~= cs@.subrange(start as int, to as int));
        lemma_find_ch_bounds(body, '.', 0);
    }
    let dot = find_ch_in_range(cs, '.', start, to);
    proof {
        assert(dot - start == find_ch(body, '.', 0));
        assert(body.take(dot - start) =~= cs@.subrange(start as int, dot as int));
    }
    let ip = match crate::text::parse_dec_u64(cs, start, dot) {
        Option::Some(v) => v,
        Option::None => {
            return Option::None;
        },
    };
    let (f, pad): (u64, u64) = if dot >= to {
        (0, 7)
    } else {
        let count = to - (dot + 1);
        if 1 <= count && count <= 7 {
            proof {
                assert(body.skip(dot - start + 1) =~= cs@.subrange(dot + 1, to as int));
            }
            match crate::text::parse_dec_u64(cs, dot + 1, to) {
                Option::Some(fv) => (fv, (7 - count) as u64),
                Option::None => {
                    return Option::None;
                },
            }
        } else {
            return Option::None;
        }
    };
    let scale = pow10(pad);
    proof {
        lemma_dec_value_bound(if dot >= to {
            Seq::<char>::empty()
        } else {
            body.skip(dot - start + 1)
        });
    }
    if ip > u64::MAX / 10_000_000 {
        proof {
            assert(ip * 10_000_000 + f * scale > i64::MAX) by (nonlinear_arith)
                requires
                    ip > u64::MAX / 10_000_000,
                    f >= 0,
                    scale >= 0,
            ;
        }
        return Option::None;
    }
    let scaled: u64 = ip * 10_000_000;
    proof {
        assert(ip * 10_000_000 <= u64::MAX) by (nonlinear_arith)
            requires
                ip <= u64::MAX / 10_000_000,
        ;
    }
    proof {
        assert(f == 0 || f as nat * (scale as nat) < 10_000_000);
        assert(f * scale < 10_000_000) by (nonlinear_arith)
            requires
                f == 0 || f as nat * (scale as nat) < 10_000_000,
                scale >= 0,
        ;
    }
    let frac_part: u64 = f * scale;
    if scaled > u64::MAX - frac_part {
        return Option::None;
    }
    let total: u64 = scaled + frac_part;
    if total > i64::MAX as u64 {
        return Option::None;
    }
    if neg {
        Option::Some(-(total as i64))
    } else {
        Option::Some(total as i64)
    }
}

/// The first eight powers of ten, written out.
proof fn lemma_pow10_values()
    ensures
        spec_pow10(0) == 1,
        spec_pow10(1) == 10,
        spec_pow10(2) == 100,
        spec_pow10(3) == 1000,
        spec_pow10(4) == 10_000,
        spec_pow10(5) == 100_000,
        spec_pow10(6) == 1_000_000,
        spec_pow10(7) == 10_000_000,
{
    assert(spec_pow10(0) == 1);
    assert(spec_pow10(1) == 10);
    assert(spec_pow10(2) == 100);
    assert(spec_pow10(3) == 1000);
    assert(spec_pow10(4) == 10_000);
    assert(spec_pow10(5) == 100_000);
    assert(spec_pow10(6) == 1_000_000);
    assert(spec_pow10(7) == 10_000_000);
}

/// A parsed fraction of at most seven digits scales below the whole scale.
proof fn lemma_dec_value_bound(digits: Seq<char>)
    ensures
        digits.len() <= 7 && spec_parse_dec_u64(digits) is Some ==> (
        spec_parse_dec_u64(digits)->0 as nat) * spec_pow10((7 - digits.len()) as nat)
            < 10_000_000,
{
    if digits.len() <= 7 && spec_parse_dec_u64(digits) is Some {
        lemma_dec_lt_pow(digits);
        lemma_pow10_add(digits.len(), (7 - digits.len()) as nat);
        lemma_pow10_values();
        lemma_pow10_mono(0, (7 - digits.len()) as nat);
        let v = spec_parse_dec_u64(digits)->0 as nat;
        let a = spec_pow10(digits.len());
        let p = spec_pow10((7 - digits.len()) as nat);
        assert(v * p < a * p) by (nonlinear_arith)
            requires
                v < a,
                p >= 1,
        ;
    }
}

/// The next `c` between `i` and `to`, or `to`.
fn find_ch_in_range(cs: &Vec<char>, c: char, i: usize, to: usize) -> (r: usize)
    requires
        i <= to <= cs@.len(),
    ensures
        r - i == find_ch(cs@.subrange(i as int, to as int), c, 0),
        i <= r <= to,
{
    let ghost window = cs@.subrange(i as int, to as int);
    proof {
        lemma_find_ch_bounds(window, c, 0);
    }
    let mut j: usize = i;
    while j < to
        invariant
            i <= j <= to <= cs@.len(),
            window == cs@.subrange(i as int, to as int),
            find_ch(window, c, 0) == find_ch(window, c, j - i),
        decreases to - j,
    {
        proof {
            assert(window[j - i] == cs@[j as int]);
        }
        if cs[j] == c {
            return j;
        }
        j = j + 1;
    }
    j
}

} // verus!

verus! {

/// The shape-specific fields gathered so far from a line.
#[derive(Debug)]
pub enum OplElementType {
    Node { lat: Option<i64>, lon: Option<i64> },
    Way { nodes: Option<Vec<i64>> },
    Relation { members: Option<Vec<Member>> },
}

/// The shape gathered so far, as a mathematical value.
pub enum OplTypeView {
    Node { lat: Option<int>, lon: Option<int> },
    Way { nodes: Option<Seq<int>> },
    Relation { members: Option<Seq<MemberView>> },
}

impl View for OplElementType {
    type V = OplTypeView;

    open spec fn view(&self) -> OplTypeView {
        match self {
            OplElementType::Node { lat, lon } => OplTypeView::Node {
                lat: match lat {
                    Option::Some(v) => Option::Some(*v as int),
                    Option::None => Option::None,
                },
                lon: match lon {
                    Option::Some(v) => Option::Some(*v as int),
                    Option::None => Option::None,
                },
            },
            OplElementType::Way { nodes } => OplTypeView::Way {
                nodes: match nodes {
                    Option::Some(ns) => Option::Some(ns@.map_values(|n: i64| n as int)),
                    Option::None => Option::None,
                },
            },
            OplElementType::Relation { members } => OplTypeView::Relation {
                members: match members {
                    Option::Some(ms) => Option::Some(ms@.map_values(|m: Member| m@)),
                    Option::None => Option::None,
                },
            },
        }
    }
}

/// Everything a line's fields have said about its element so far.
#[derive(Debug)]
pub struct OplElement {
    pub id: Option<i64>,
    pub version: Option<i32>,
    pub visible: Option<bool>,
    pub changeset: Option<i64>,
    pub timestamp: Option<String>,
    pub user_id: Option<i32>,
    pub username: Option<String>,
    pub tags: Option<Tags>,
    pub element_type: Option<OplElementType>,
}

/// The gathered fields, as mathematical values.
pub struct OplView {
    pub id: Option<int>,
    pub version: Option<int>,
    pub visible: Option<bool>,
    pub changeset: Option<int>,
    pub timestamp: Option<Seq<char>>,
    pub user_id: Option<int>,
    pub username: Option<Seq<char>>,
    pub tags: Option<Seq<(Seq<char>, Seq<char>)>>,
    pub element_type: Option<OplTypeView>,
}

impl View for OplElement {
    type V = OplView;

    open spec fn view(&self) -> OplView {
        OplView {
            id: match self.id {
                Option::Some(v) => Option::Some(v as int),
                Option::None => Option::None,
            },
            version: match self.version {
                Option::Some(v) => Option::Some(v as int),
                Option::None => Option::None,
            },
            visible: self.visible,
            changeset: match self.changeset {
                Option::Some(v) => Option::Some(v as int),
                Option::None => Option::None,
            },
            timestamp: self.timestamp.deep_view(),
            user_id: match self.user_id {
                Option::Some(v) => Option::Some(v as int),
                Option::None => Option::None,
            },
            username: self.username.deep_view(),
            tags: match &self.tags {
                Option::Some(t) => Option::Some(t@),
                Option::None => Option::None,
            },
            element_type: match &self.element_type {
                Option::Some(t) => Option::Some(t@),
                Option::None => Option::None,
            },
        }
    }
}

impl OplElement {
    /// A state with nothing gathered yet.
    pub fn new() -> (r: OplElement)
        ensures
            r@ == (OplView {
                id: Option::None,
                version: Option::None,
                visible: Option::None,
                changeset: Option::None,
                timestamp: Option::None,
                user_id: Option::None,
                username: Option::None,
                tags: Option::None,
                element_type: Option::None,
            }),
    {
        OplElement {
            id: Option::None,
            version: Option::None,
            visible: Option::None,
            changeset: Option::None,
            timestamp: Option::None,
            user_id: Option::None,
            username: Option::None,
            tags: Option::None,
            element_type: Option::None,
        }
    }
}

/// The tag list a `T` field carries: comma-separated entries, an entry
/// without `=` skipped, key and value unescaped and inserted in order.
pub open spec fn spec_opl_tags_of(
    v: Seq<char>,
    acc: Seq<(Seq<char>, Seq<char>)>,
) -> Seq<(Seq<char>, Seq<char>)>
    decreases v.len(),
{
    let j = find_ch(v, ',', 0);
    let j1 = if 0 <= j <= v.len() {
        j
    } else {
        0
    };
    let piece = v.take(j1);
    let eq = find_ch(piece, '=', 0);
    let acc2 = if 0 <= eq < piece.len() {
        tags_set(acc, spec_unescape(piece.take(eq)), spec_unescape(piece.skip(eq + 1)))
    } else {
        acc
    };
    if j1 >= v.len() {
        acc2
    } else {
        spec_opl_tags_of(v.skip(j1 + 1), acc2)
    }
}

/// The node references an `N` field carries: comma-separated entries, each
/// read past its first character up to any `x` or `y`; `None` on an entry
/// that holds no number.
pub open spec fn spec_opl_nodes_of(v: Seq<char>) -> Option<Seq<int>>
    decreases v.len(),
{
    let j = find_ch(v, ',', 0);
    let j1 = if 0 <= j <= v.len() {
        j
    } else {
        0
    };
    let piece = v.take(j1);
    let k = find_xy(piece, 0);
    let p0 = piece.take(if 0 <= k <= piece.len() {
        k
    } else {
        0
    });
    if p0.len() < 1 {
        Option::None
    } else {
        match spec_parse_dec_i64(p0.drop_first()) {
            Option::Some(id) => if j1 >= v.len() {
                Option::Some(seq![id as int])
            } else {
                match spec_opl_nodes_of(v.skip(j1 + 1)) {
                    Option::Some(rest) => Option::Some(seq![id as int] + rest),
                    Option::None => Option::None,
                }
            },
            Option::None => Option::None,
        }
    }
}

/// The first index at or past `i` holding `x` or `y`, or the text's length.
pub open spec fn find_xy(cs: Seq<char>, i: int) -> int
    decreases cs.len() - i,
{
    if i < 0 || i >= cs.len() {
        cs.len() as int
    } else if cs[i] == 'x' || cs[i] == 'y' {
        i
    } else {
        find_xy(cs, i + 1)
    }
}

/// `find_xy` stays within the text and never moves backwards.
pub proof fn lemma_find_xy_bounds(cs: Seq<char>, i: int)
    requires
        0 <= i <= cs.len(),
    ensures
        i <= find_xy(cs, i) <= cs.len(),
    decreases cs.len() - i,
{
    if i < cs.len() && !(cs[i] == 'x' || cs[i] == 'y') {
        lemma_find_xy_bounds(cs, i + 1);
    }
}

/// The members an `M` field carries: comma-separated entries of a type
/// character, a reference, `@` and a role; an entry with an unknown type
/// character is skipped, one without `@` or without a number refuses the
/// whole field.
pub open spec fn spec_opl_members_of(v: Seq<char>) -> Option<Seq<MemberView>>
    decreases v.len(),
{
    let j = find_ch(v, ',', 0);
    let j1 = if 0 <= j <= v.len() {
        j
    } else {
        0
    };
    let piece = v.take(j1);
    let at = find_ch(piece, '@', 0);
    if !(0 <= at < piece.len()) {
        Option::None
    } else {
        let refv = piece.take(at);
        let role = piece.skip(at + 1);
        if refv.len() < 1 {
            Option::None
        } else {
            let t = if refv[0] == 'n' {
                Option::Some(SimpleElementType::Node)
            } else if refv[0] == 'w' {
                Option::Some(SimpleElementType::Way)
            } else if refv[0] == 'r' {
                Option::Some(SimpleElementType::Relation)
            } else {
                Option::None
            };
            let head = match (t, spec_parse_dec_i64(refv.drop_first())) {
                (Option::Some(tv), Option::Some(id)) => Option::Some(
                    Option::Some(
                        MemberView {
                            t: Option::Some(tv),
                            id: id as int,
                            role: Option::Some(spec_unescape(role)),
                        },
                    ),
                ),
                (Option::None, _) => Option::Some(Option::None),
                (_, Option::None) => Option::None,
            };
            match head {
                Option::None => Option::None,
                Option::Some(h) => if j1 >= v.len() {
                    match h {
                        Option::Some(m) => Option::Some(seq![m]),
                        Option::None => Option::Some(Seq::empty()),
                    }
                } else {
                    match spec_opl_members_of(v.skip(j1 + 1)) {
                        Option::Some(rest) => match h {
                            Option::Some(m) => Option::Some(seq![m] + rest),
                            Option::None => Option::Some(rest),
                        },
                        Option::None => Option::None,
                    }
                },
            }
        }
    }
}

} // verus!

verus! {

/// The next `x` or `y` in `cs`, or the text's length.
fn find_xy_exec(cs: &Vec<char>) -> (r: usize)
    ensures
        r as int == find_xy(cs@, 0),
        r <= cs@.len(),
{
    proof {
        lemma_find_xy_bounds(cs@, 0);
    }
    let mut j: usize = 0;
    while j < cs.len()
        invariant
            j <= cs@.len(),
            find_xy(cs@, 0) == find_xy(cs@, j as int),
        decreases cs@.len() - j,
    {
        if cs[j] == 'x' || cs[j] == 'y' {
            return j;
        }
        j = j + 1;
    }
    j
}

/// Reads a `T` field's tag list into `tags`, as `spec_opl_tags_of` gives
/// it.
#[verifier::loop_isolation(false)]
fn opl_tags_of(v: &Vec<char>) -> (r: Tags)
    ensures
        r@ == spec_opl_tags_of(v@, Seq::<(Seq<char>, Seq<char>)>::empty()),
        r.wf(),
{
    let mut tags = Tags::new();
    let mut pos: usize = 0;
    let n = v.len();
    proof {
        assert(v@.skip(0) =~= v@);
    }
    loop
        invariant
            pos <= n == v@.len(),
            tags.wf(),
            spec_opl_tags_of(v@, Seq::<(Seq<char>, Seq<char>)>::empty()) == spec_opl_tags_of(
                v@.skip(pos as int),
                tags@,
            ),
        decreases n - pos,
    {
        let ghost win = v@.skip(pos as int);
        let j = find_ch_in_range(v, ',', pos, n);
        proof {
            assert(win =~= v@.subrange(pos as int, n as int));
            assert(win.take(j - pos) =~= v@.subrange(pos as int, j as int));
        }
        let piece = chars_subrange(v, pos, j);
        let eq = find_ch_exec(&piece, '=', 0);
        proof {
            lemma_find_ch_bounds(piece@, '=', 0);
        }
        if eq < piece.len() {
            let key_cs = chars_subrange(&piece, 0, eq);
            let val_cs = chars_subrange(&piece, eq + 1, piece.len());
            let key = unescape_str(chars_to_string(&key_cs).as_str());
            let value = unescape_str(chars_to_string(&val_cs).as_str());
            proof {
                assert(key_cs@ =~= piece@.take(eq as int));
                assert(val_cs@ =~= piece@.skip(eq + 1));
            }
            tags.insert(key, value);
        }
        if j >= n {
            break;
        }
        proof {
            assert(win.skip(j - pos + 1) =~= v@.skip(j + 1));
        }
        pos = j + 1;
    }
    tags
}

/// Reads an `N` field's node references, as `spec_opl_nodes_of` gives
/// them.
#[verifier::loop_isolation(false)]
fn opl_nodes_of(v: &Vec<char>) -> (r: Option<Vec<i64>>)
    ensures
        match r {
            Option::Some(ns) => spec_opl_nodes_of(v@) == Option::Some(
                ns@.map_values(|n: i64| n as int),
            ),
            Option::None => spec_opl_nodes_of(v@) is None,
        },
{
    let mut out: Vec<i64> = Vec::new();
    let mut pos: usize = 0;
    let n = v.len();
    proof {
        assert(v@.skip(0) =~= v@);
    }
    loop
        invariant
            pos <= n == v@.len(),
            spec_opl_nodes_of(v@) == match spec_opl_nodes_of(v@.skip(pos as int)) {
                Option::Some(rest) => Option::Some(out@.map_values(|x: i64| x as int) + rest),
                Option::None => Option::<Seq<int>>::None,
            },
        decreases n - pos,
    {
        let ghost win = v@.skip(pos as int);
        let ghost out0 = out@.map_values(|x: i64| x as int);
        let j = find_ch_in_range(v, ',', pos, n);
        proof {
            assert(win =~= v@.subrange(pos as int, n as int));
            assert(win.take(j - pos) =~= v@.subrange(pos as int, j as int));
        }
        let piece = chars_subrange(v, pos, j);
        let k = find_xy_exec(&piece);
        if k < 1 {
            proof {
                assert(piece@.take(find_xy(piece@, 0)).len() < 1);
            }
            return Option::None;
        }
        proof {
            assert(piece@.take(k as int).drop_first() =~= v@.subrange(pos + 1, pos + k));
        }
        let id = match crate::text::parse_dec_i64(v, pos + 1, pos + k) {
            Option::Some(id) => id,
            Option::None => {
                return Option::None;
            },
        };
        out.push(id);
        proof {
            assert(out@.map_values(|x: i64| x as int) =~= out0.push(id as int));
        }
        if j >= n {
            proof {
                assert(out0 + seq![id as int] =~= out@.map_values(|x: i64| x as int));
            }
            return Option::Some(out);
        }
        proof {
            assert(win.skip(j - pos + 1) =~= v@.skip(j + 1));
            assert(forall|rest: Seq<int>| out0 + (seq![id as int] + rest) =~= out@.map_values(
                |x: i64| x as int,
            ) + rest);
        }
        pos = j + 1;
    }
}

/// Reads an `M` field's members, as `spec_opl_members_of` gives them.
#[verifier::loop_isolation(false)]
fn opl_members_of(v: &Vec<char>) -> (r: Option<Vec<Member>>)
    ensures
        match r {
            Option::Some(ms) => spec_opl_members_of(v@) == Option::Some(
                ms@.map_values(|m: Member| m@),
            ),
            Option::None => spec_opl_members_of(v@) is None,
        },
{
    let mut out: Vec<Member> = Vec::new();
    let mut pos: usize = 0;
    let n = v.len();
    proof {
        assert(v@.skip(0) =~= v@);
    }
    loop
        invariant
            pos <= n == v@.len(),
            spec_opl_members_of(v@) == match spec_opl_members_of(v@.skip(pos as int)) {
                Option::Some(rest) => Option::Some(out@.map_values(|m: Member| m@) + rest),
                Option::None => Option::<Seq<MemberView>>::None,
            },
        decreases n - pos,
    {
        let ghost win = v@.skip(pos as int);
        let ghost out0 = out@.map_values(|m: Member| m@);
        let j = find_ch_in_range(v, ',', pos, n);
        proof {
            assert(win =~= v@.subrange(pos as int, n as int));
            assert(win.take(j - pos) =~= v@.subrange(pos as int, j as int));
        }
        let piece = chars_subrange(v, pos, j);
        let at = find_ch_exec(&piece, '@', 0);
        proof {
            lemma_find_ch_bounds(piece@, '@', 0);
        }
        if at >= piece.len() {
            return Option::None;
        }
        if at < 1 {
            proof {
                assert(piece@.take(at as int).len() < 1);
            }
            return Option::None;
        }
        let tchar = piece[0];
        let t: Option<SimpleElementType> = if tchar == 'n' {
            Option::Some(SimpleElementType::Node)
        } else if tchar == 'w' {
            Option::Some(SimpleElementType::Way)
        } else if tchar == 'r' {
            Option::Some(SimpleElementType::Relation)
        } else {
            Option::None
        };
        proof {
            assert(piece@.take(at as int).drop_first() =~= v@.subrange(pos + 1, pos + at));
            assert(piece@.take(at as int)[0] == piece@[0]);
        }
        match t {
            Option::Some(tv) => {
                let id = match crate::text::parse_dec_i64(v, pos + 1, pos + at) {
                    Option::Some(id) => id,
                    Option::None => {
                        return Option::None;
                    },
                };
                let role_cs = chars_subrange(&piece, at + 1, piece.len());
                let role = unescape_str(chars_to_string(&role_cs).as_str());
                proof {
                    assert(role_cs@ =~= piece@.skip(at + 1));
                }
                let m = Member { t: Option::Some(tv), id, role: Option::Some(role) };
                let ghost mv = m@;
                out.push(m);
                proof {
                    assert(out@.map_values(|m: Member| m@) =~= out0.push(mv));
                }
                if j >= n {
                    proof {
                        assert(out0 + seq![mv] =~= out@.map_values(|m: Member| m@));
                    }
                    return Option::Some(out);
                }
                proof {
                    assert(win.skip(j - pos + 1) =~= v@.skip(j + 1));
                    assert(forall|rest: Seq<MemberView>| out0 + (seq![mv] + rest) =~= out@
                        .map_values(|m: Member| m@) + rest);
                }
            },
            Option::None => {
                // An unknown type character skips the entry.
                if j >= n {
                    proof {
                        assert(out0 + Seq::<MemberView>::empty() =~= out@.map_values(
                            |m: Member| m@,
                        ));
                    }
                    return Option::Some(out);
                }
                proof {
                    assert(win.skip(j - pos + 1) =~= v@.skip(j + 1));
                }
            },
        }
        pos = j + 1;
    }
}

} // verus!

verus! {

/// What one field says: the marker character leads, the rest is its value.
/// An unreadable field — an unknown marker, a number that does not parse, a
/// position on a shape that has none — refuses the line.
pub open spec fn spec_add_field(f: Seq<char>, st: OplView) -> Option<OplView> {
    if f.len() < 1 {
        Option::None
    } else {
        let v = f.drop_first();
        if f[0] == 'n' || f[0] == 'w' || f[0] == 'r' {
            match spec_parse_dec_i64(v) {
                Option::Some(id) => Option::Some(OplView { id: Option::Some(id as int), ..st }),
                Option::None => Option::None,
            }
        } else if f[0] == 'v' {
            match spec_parse_dec_i64(v) {
                Option::Some(x) => if i32::MIN <= x <= i32::MAX {
                    Option::Some(OplView { version: Option::Some(x as int), ..st })
                } else {
                    Option::None
                },
                Option::None => Option::None,
            }
        } else if f[0] == 'd' {
            if v == seq!['V'] {
                Option::Some(OplView { visible: Option::Some(true), ..st })
            } else if v == seq!['D'] {
                Option::Some(OplView { visible: Option::Some(false), ..st })
            } else {
                Option::None
            }
        } else if f[0] == 'c' {
            match spec_parse_dec_i64(v) {
                Option::Some(x) => Option::Some(OplView { changeset: Option::Some(x as int), ..st }),
                Option::None => Option::None,
            }
        } else if f[0] == 't' {
            Option::Some(OplView { timestamp: Option::Some(v), ..st })
        } else if f[0] == 'i' {
            match spec_parse_dec_i64(v) {
                Option::Some(x) => if i32::MIN <= x <= i32::MAX {
                    Option::Some(OplView { user_id: Option::Some(x as int), ..st })
                } else {
                    Option::None
                },
                Option::None => Option::None,
            }
        } else if f[0] == 'u' {
            Option::Some(OplView { username: Option::Some(spec_unescape(v)), ..st })
        } else if f[0] == 'T' {
            Option::Some(
                OplView {
                    tags: Option::Some(
                        spec_opl_tags_of(v, Seq::<(Seq<char>, Seq<char>)>::empty()),
                    ),
                    ..st
                },
            )
        } else if f[0] == 'x' || f[0] == 'y' {
            match spec_parse_coord(v) {
                Option::Some(c) => {
                    let here = Option::Some(c as int);
                    match st.element_type {
                        Option::None => Option::Some(
                            OplView {
                                element_type: Option::Some(
                                    if f[0] == 'x' {
                                        OplTypeView::Node { lat: Option::None, lon: here }
                                    } else {
                                        OplTypeView::Node { lat: here, lon: Option::None }
                                    },
                                ),
                                ..st
                            },
                        ),
                        Option::Some(OplTypeView::Node { lat, lon }) => Option::Some(
                            OplView {
                                element_type: Option::Some(
                                    if f[0] == 'x' {
                                        OplTypeView::Node { lat, lon: here }
                                    } else {
                                        OplTypeView::Node { lat: here, lon }
                                    },
                                ),
                                ..st
                            },
                        ),
                        _ => Option::None,
                    }
                },
                Option::None => Option::None,
            }
        } else if f[0] == 'N' {
            match spec_opl_nodes_of(v) {
                Option::Some(ns) => Option::Some(
                    OplView {
                        element_type: Option::Some(
                            OplTypeView::Way { nodes: Option::Some(ns) },
                        ),
                        ..st
                    },
                ),
                Option::None => Option::None,
            }
        } else if f[0] == 'M' {
            match spec_opl_members_of(v) {
                Option::Some(ms) => Option::Some(
                    OplView {
                        element_type: Option::Some(
                            OplTypeView::Relation { members: Option::Some(ms) },
                        ),
                        ..st
                    },
                ),
                Option::None => Option::None,
            }
        } else {
            Option::None
        }
    }
}

/// Takes one field into the gathered state, as `spec_add_field` gives it.
pub fn add_field(field: &Vec<char>, opl_element: OplElement) -> (r: Option<OplElement>)
    ensures
        match r {
            Option::Some(out) => spec_add_field(field@, opl_element@) == Option::Some(out@) && ((
            opl_element.tags matches Option::Some(t0) ==> t0.wf()) ==> (out.tags matches
                Option::Some(t) ==> t.wf())),
            Option::None => spec_add_field(field@, opl_element@) is None,
        },
{
    if field.len() < 1 {
        return Option::None;
    }
    let n = field.len();
    let ghost v = field@.drop_first();
    proof {
        assert(v =~= field@.subrange(1, n as int));
    }
    let flag = field[0];
    let mut e = opl_element;
    if flag == 'n' || flag == 'w' || flag == 'r' {
        match parse_dec_i64(field, 1, n) {
            Option::Some(id) => {
                e.id = Option::Some(id);
                Option::Some(e)
            },
            Option::None => Option::None,
        }
    } else if flag == 'v' {
        match parse_dec_i64(field, 1, n) {
            Option::Some(x) => {
                if i32::MIN as i64 <= x && x <= i32::MAX as i64 {
                    e.version = Option::Some(x as i32);
                    Option::Some(e)
                } else {
                    Option::None
                }
            },
            Option::None => Option::None,
        }
    } else if flag == 'd' {
        if n == 2 && field[1] == 'V' {
            proof {
                assert(v =~= seq!['V']);
            }
            e.visible = Option::Some(true);
            Option::Some(e)
        } else if n == 2 && field[1] == 'D' {
            proof {
                assert(v =~= seq!['D']);
            }
            e.visible = Option::Some(false);
            Option::Some(e)
        } else {
            proof {
                if v.len() == 1 {
                    assert(v[0] == field@[1]);
                }
                assert(v != seq!['V'] && v != seq!['D']) by {
                    if v =~= seq!['V'] {
                        assert(field@[1] == 'V' && v.len() == 1);
                    }
                    if v =~= seq!['D'] {
                        assert(field@[1] == 'D' && v.len() == 1);
                    }
                }
            }
            Option::None
        }
    } else if flag == 'c' {
        match parse_dec_i64(field, 1, n) {
            Option::Some(x) => {
                e.changeset = Option::Some(x);
                Option::Some(e)
            },
            Option::None => Option::None,
        }
    } else if flag == 't' {
        let cs = chars_subrange(field, 1, n);
        e.timestamp = Option::Some(chars_to_string(&cs));
        Option::Some(e)
    } else if flag == 'i' {
        match parse_dec_i64(field, 1, n) {
            Option::Some(x) => {
                if i32::MIN as i64 <= x && x <= i32::MAX as i64 {
                    e.user_id = Option::Some(x as i32);
                    Option::Some(e)
                } else {
                    Option::None
                }
            },
            Option::None => Option::None,
        }
    } else if flag == 'u' {
        let cs = chars_subrange(field, 1, n);
        e.username = Option::Some(unescape_str(chars_to_string(&cs).as_str()));
        Option::Some(e)
    } else if flag == 'T' {
        let cs = chars_subrange(field, 1, n);
        e.tags = Option::Some(opl_tags_of(&cs));
        Option::Some(e)
    } else if flag == 'x' || flag == 'y' {
        let cs = chars_subrange(field, 1, n);
        match parse_coord(&cs, 0, cs.len()) {
            Option::Some(c) => {
                proof {
                    assert(cs@.subrange(0, cs@.len() as int) =~= v);
                }
                let fresh: OplElementType = if flag == 'x' {
                    OplElementType::Node { lat: Option::None, lon: Option::Some(c) }
                } else {
                    OplElementType::Node { lat: Option::Some(c), lon: Option::None }
                };
                match e.element_type {
                    Option::None => {
                        e.element_type = Option::Some(fresh);
                        Option::Some(e)
                    },
                    Option::Some(OplElementType::Node { lat, lon }) => {
                        e.element_type = Option::Some(
                            if flag == 'x' {
                                OplElementType::Node { lat, lon: Option::Some(c) }
                            } else {
                                OplElementType::Node { lat: Option::Some(c), lon }
                            },
                        );
                        Option::Some(e)
                    },
                    Option::Some(other) => Option::None,
                }
            },
            Option::None => {
                proof {
                    assert(cs@.subrange(0, cs@.len() as int) =~= v);
                }
                Option::None
            },
        }
    } else if flag == 'N' {
        let cs = chars_subrange(field, 1, n);
        match opl_nodes_of(&cs) {
            Option::Some(ns) => {
                e.element_type = Option::Some(OplElementType::Way { nodes: Option::Some(ns) });
                Option::Some(e)
            },
            Option::None => Option::None,
        }
    } else if flag == 'M' {
        let cs = chars_subrange(field, 1, n);
        match opl_members_of(&cs) {
            Option::Some(ms) => {
                e.element_type = Option::Some(
                    OplElementType::Relation { members: Option::Some(ms) },
                );
                Option::Some(e)
            },
            Option::None => Option::None,
        }
    } else {
        Option::None
    }
}

} // verus!

verus! {

/// ASCII whitespace between fields.
pub open spec fn is_opl_space(c: char) -> bool {
    c == ' ' || c == '\t' || c == '\n' || c == '\r'
}

/// The first index at or past `i` holding whitespace, or the text's length:
/// the end of the field starting at `i`.
pub open spec fn opl_field_end(cs: Seq<char>, i: int) -> int
    decreases cs.len() - i,
{
    if i < 0 || i >= cs.len() {
        cs.len() as int
    } else if is_opl_space(cs[i]) {
        i
    } else {
        opl_field_end(cs, i + 1)
    }
}

/// The field end stays within the text and past a non-space start.
pub proof fn lemma_opl_field_end_bounds(cs: Seq<char>, i: int)
    requires
        0 <= i <= cs.len(),
    ensures
        i <= opl_field_end(cs, i) <= cs.len(),
        i < cs.len() && !is_opl_space(cs[i]) ==> i < opl_field_end(cs, i),
    decreases cs.len() - i,
{
    if i < cs.len() && !is_opl_space(cs[i]) {
        lemma_opl_field_end_bounds(cs, i + 1);
    }
}

/// The element a finished line names: its fields as gathered, its shape
/// complete; `None` when the identifier, the tag list, the shape or one of
/// the shape's parts never arrived.
pub open spec fn spec_finish(st: OplView) -> Option<ElementView> {
    match (st.id, st.tags, st.element_type) {
        (Option::Some(id), Option::Some(tags), Option::Some(ty)) => {
            let shape = match ty {
                OplTypeView::Node { lat: Option::Some(la), lon: Option::Some(lo) } => Option::Some(
                    ElementTypeView::Node { lat: la, lon: lo },
                ),
                OplTypeView::Way { nodes: Option::Some(ns) } => Option::Some(
                    ElementTypeView::Way { nodes: ns },
                ),
                OplTypeView::Relation { members: Option::Some(ms) } => Option::Some(
                    ElementTypeView::Relation { members: ms },
                ),
                _ => Option::None,
            };
            match shape {
                Option::Some(s) => Option::Some(
                    ElementView {
                        changeset: st.changeset,
                        user: st.username,
                        version: st.version,
                        uid: st.user_id,
                        id: id,
                        timestamp: st.timestamp,
                        visible: st.visible,
                        tags: tags,
                        element_type: s,
                    },
                ),
                Option::None => Option::None,
            }
        },
        _ => Option::None,
    }
}

/// The element a line's fields decode to, field by field from position `i`.
pub open spec fn spec_decode_at(cs: Seq<char>, i: int, st: OplView) -> Option<ElementView>
    decreases cs.len() - i,
{
    if i < 0 || i >= cs.len() {
        spec_finish(st)
    } else if is_opl_space(cs[i]) {
        spec_decode_at(cs, i + 1, st)
    } else {
        let j = opl_field_end(cs, i);
        let j1 = if i < j <= cs.len() {
            j
        } else {
            i + 1
        };
        match spec_add_field(cs.subrange(i, j1), st) {
            Option::Some(st2) => spec_decode_at(cs, j1, st2),
            Option::None => Option::None,
        }
    }
}

/// The element one OPL line carries.
pub open spec fn spec_decode_line(cs: Seq<char>) -> Option<ElementView> {
    spec_decode_at(
        cs,
        0,
        OplView {
            id: Option::None,
            version: Option::None,
            visible: Option::None,
            changeset: Option::None,
            timestamp: Option::None,
            user_id: Option::None,
            username: Option::None,
            tags: Option::None,
            element_type: Option::None,
        },
    )
}

/// The end of the field starting at `i`.
fn opl_field_end_exec(cs: &Vec<char>, i: usize) -> (r: usize)
    requires
        i <= cs@.len(),
    ensures
        r as int == opl_field_end(cs@, i as int),
        i <= r <= cs@.len(),
{
    proof {
        lemma_opl_field_end_bounds(cs@, i as int);
    }
    let mut j: usize = i;
    while j < cs.len()
        invariant
            i <= j <= cs@.len(),
            opl_field_end(cs@, i as int) == opl_field_end(cs@, j as int),
        decreases cs@.len() - j,
    {
        let c = cs[j];
        if c == ' ' || c == '\t' || c == '\n' || c == '\r' {
            return j;
        }
        j = j + 1;
    }
    j
}

/// Decodes one OPL line into an element, exactly as `spec_decode_line`
/// gives it; the element's tag keys come out unique.
#[verifier::loop_isolation(false)]
pub fn convert_element(line: &str) -> (r: Option<Element>)
    ensures
        match r {
            Option::Some(e) => spec_decode_line(line@) == Option::Some(e@) && e.wf(),
            Option::None => spec_decode_line(line@) is None,
        },
{
    let cs = str_to_chars(line);
    let mut state = OplElement::new();
    let mut i: usize = 0;
    let n = cs.len();
    while i < n
        invariant
            i <= n == cs@.len(),
            cs@ == line@,
            state.tags matches Option::Some(t) ==> t.wf(),
            spec_decode_line(line@) == spec_decode_at(cs@, i as int, state@),
        decreases n - i,
    {
        let c = cs[i];
        if c == ' ' || c == '\t' || c == '\n' || c == '\r' {
            i = i + 1;
        } else {
            let j = opl_field_end_exec(&cs, i);
            proof {
                lemma_opl_field_end_bounds(cs@, i as int);
            }
            let field = chars_subrange(&cs, i, j);
            state = match add_field(&field, state) {
                Option::Some(st) => st,
                Option::None => {
                    return Option::None;
                },
            };
            i = j;
        }
    }
    let finished = state;
    match (finished.id, finished.tags, finished.element_type) {
        (Option::Some(id), Option::Some(tags), Option::Some(ty)) => {
            let shape: ElementType = match ty {
                OplElementType::Node { lat: Option::Some(la), lon: Option::Some(lo) } => {
                    ElementType::Node { lat: la, lon: lo }
                },
                OplElementType::Way { nodes: Option::Some(ns) } => ElementType::Way { nodes: ns },
                OplElementType::Relation { members: Option::Some(ms) } => ElementType::Relation {
                    members: ms,
                },
                _ => {
                    return Option::None;
                },
            };
            Option::Some(
                Element {
                    changeset: finished.changeset,
                    user: finished.username,
                    version: finished.version,
                    uid: finished.user_id,
                    id,
                    timestamp: finished.timestamp,
                    visible: finished.visible,
                    tags,
                    element_type: shape,
                },
            )
        },
        _ => Option::None,
    }
}

} // verus!

verus! {

/// Where every character before `j` differs from `c` and `cs[j]` is `c` (or
/// `j` is the end), the search finds `j`.
proof fn lemma_find_ch_found(cs: Seq<char>, c: char, i: int, j: int)
    requires
        0 <= i <= j <= cs.len(),
        forall|k: int| i <= k < j ==> cs[k] != c,
        j == cs.len() || cs[j] == c,
    ensures
        find_ch(cs, c, i) == j,
    decreases j - i,
{
    if i < j {
        lemma_find_ch_found(cs, c, i + 1, j);
    }
}

/// Every character of a decimal numeral is a decimal digit.
proof fn lemma_dec_of_digits(n: nat, k: int)
    requires
        0 <= k < crate::text::spec_dec_of(n).len(),
    ensures
        '0' <= crate::text::spec_dec_of(n)[k] <= '9',
    decreases n,
{
    if n >= 10 {
        if k < crate::text::spec_dec_of(n / 10).len() {
            lemma_dec_of_digits(n / 10, k);
            assert(crate::text::spec_dec_of(n)[k] == crate::text::spec_dec_of(n / 10)[k]);
        }
    }
}

/// Reading back a written decimal numeral yields the number.
proof fn lemma_dec_round_trip(n: nat)
    requires
        n <= u64::MAX,
    ensures
        spec_parse_dec_u64(crate::text::spec_dec_of(n)) == Option::Some(n as u64),
    decreases n,
{
    let s = crate::text::spec_dec_of(n);
    if n < 10 {
        assert(s.len() == 1);
    } else {
        lemma_dec_round_trip(n / 10);
        assert(s.drop_last() =~= crate::text::spec_dec_of(n / 10));
        assert(crate::text::spec_dec_digit(s[s.len() - 1]) == Option::Some((n % 10) as u32));
    }
}

/// A zero-padded fraction writes `n` digits.
proof fn lemma_fracn_len(f: nat, n: nat)
    ensures
        crate::text::spec_fracn(f, n).len() == n,
    decreases n,
{
    if n > 0 {
        lemma_fracn_len(f / 10, (n - 1) as nat);
    }
}

/// Every character of a zero-padded fraction is a decimal digit.
proof fn lemma_fracn_digits(f: nat, n: nat, k: int)
    requires
        0 <= k < crate::text::spec_fracn(f, n).len(),
    ensures
        '0' <= crate::text::spec_fracn(f, n)[k] <= '9',
    decreases n,
{
    if n > 0 {
        lemma_fracn_len(f / 10, (n - 1) as nat);
        if k < crate::text::spec_fracn(f / 10, (n - 1) as nat).len() {
            lemma_fracn_digits(f / 10, (n - 1) as nat, k);
            assert(crate::text::spec_fracn(f, n)[k] == crate::text::spec_fracn(
                f / 10,
                (n - 1) as nat,
            )[k]);
        }
    }
}

/// Reading back a zero-padded fraction yields its value.
proof fn lemma_fracn_value(f: nat, n: nat)
    requires
        1 <= n,
        f < spec_pow10(n),
        f <= u64::MAX,
    ensures
        spec_parse_dec_u64(crate::text::spec_fracn(f, n)) == Option::Some(f as u64),
    decreases n,
{
    let s = crate::text::spec_fracn(f, n);
    lemma_fracn_len(f, n);
    if n == 1 {
        assert(s.len() == 1);
        assert(spec_pow10(1nat) == 10 * spec_pow10(0nat));
        assert(spec_pow10(0nat) == 1);
        assert(f < 10);
        assert(crate::text::spec_dec_digit(s[0]) == Option::Some((f % 10) as u32));
    } else {
        assert(f / 10 < spec_pow10((n - 1) as nat)) by (nonlinear_arith)
            requires
                f < spec_pow10(n),
                spec_pow10(n) == 10 * spec_pow10((n - 1) as nat),
        ;
        lemma_fracn_value(f / 10, (n - 1) as nat);
        lemma_fracn_len(f / 10, (n - 1) as nat);
        assert(s.drop_last() =~= crate::text::spec_fracn(f / 10, (n - 1) as nat));
        assert(crate::text::spec_dec_digit(s[s.len() - 1]) == Option::Some((f % 10) as u32));
    }
}

/// Trimming trailing zeros leaves a prefix.
proof fn lemma_trim_prefix(s: Seq<char>)
    ensures
        crate::text::spec_trim_zeros(s) == s.take(crate::text::spec_trim_zeros(s).len() as int),
        crate::text::spec_trim_zeros(s).len() <= s.len(),
    decreases s.len(),
{
    let t = crate::text::spec_trim_zeros(s);
    if s.len() > 0 && s[s.len() - 1] == '0' {
        lemma_trim_prefix(s.drop_last());
        assert(s.drop_last().take(t.len() as int) =~= s.take(t.len() as int));
    } else {
        assert(t =~= s.take(t.len() as int));
    }
}

/// What trimming trailing zeros does to the numeral's value: the trimmed
/// digits, scaled back by ten per dropped zero, read as the value; an
/// all-zero numeral trims to nothing and meant zero.
proof fn lemma_trim_value(s: Seq<char>, v: u64)
    requires
        s.len() > 0,
        spec_parse_dec_u64(s) == Option::Some(v),
    ensures
        ({
            let t = crate::text::spec_trim_zeros(s);
            &&& (t.len() == 0 ==> v == 0)
            &&& (t.len() > 0 ==> spec_parse_dec_u64(t) is Some && (spec_parse_dec_u64(t)->0 as nat)
                * spec_pow10((s.len() - t.len()) as nat) == v as nat)
        }),
    decreases s.len(),
{
    let t = crate::text::spec_trim_zeros(s);
    lemma_trim_prefix(s);
    if s[s.len() - 1] == '0' {
        assert(crate::text::spec_dec_digit(s[s.len() - 1]) == Option::Some(0u32));
        if s.len() == 1 {
            assert(v == 0);
            assert(t.len() == 0);
        } else {
            let hi = spec_parse_dec_u64(s.drop_last());
            assert(hi is Some);
            let h = hi->0;
            assert(v == h * 10 + 0);
            lemma_trim_value(s.drop_last(), h);
            lemma_trim_prefix(s.drop_last());
            assert(crate::text::spec_trim_zeros(s.drop_last()) == t);
            if t.len() == 0 {
                assert(h == 0);
            } else {
                let f = spec_parse_dec_u64(t)->0 as nat;
                let k = (s.drop_last().len() - t.len()) as nat;
                assert(f * spec_pow10(k) == h as nat);
                assert(spec_pow10(k + 1) == spec_pow10(k) * 10) by {
                    lemma_pow10_add(k, 1);
                    assert(spec_pow10(0nat) == 1);
                    assert(spec_pow10(1nat) == 10 * spec_pow10(0nat));
                }
                assert(f * spec_pow10(k + 1) == v as nat) by (nonlinear_arith)
                    requires
                        f * spec_pow10(k) == h as nat,
                        spec_pow10(k + 1) == spec_pow10(k) * 10,
                        v == h * 10,
                ;
                assert((s.len() - t.len()) as nat == k + 1);
                assert((spec_parse_dec_u64(t)->0 as nat) * spec_pow10(
                    (s.len() - t.len()) as nat,
                ) == v as nat);
            }
        }
    } else {
        assert(t == s);
        assert((s.len() - t.len()) as nat == 0nat);
        assert(spec_pow10(0nat) == 1);
        assert((spec_parse_dec_u64(t)->0 as nat) * spec_pow10((s.len() - t.len()) as nat)
            == v as nat);
    }
}


/// A decimal numeral has at least one digit.
proof fn lemma_dec_of_len(n: nat)
    ensures
        crate::text::spec_dec_of(n).len() >= 1,
    decreases n,
{
    if n >= 10 {
        lemma_dec_of_len(n / 10);
    }
}

/// Reading back a written coordinate yields the value: the decoder inverts
/// the writer on every coordinate both can carry.
pub proof fn lemma_coord_round_trip(v: int)
    requires
        -(i64::MAX as int) <= v <= i64::MAX as int,
    ensures
        spec_parse_coord(crate::text::spec_coord_of(v)) == Option::Some(v as i64),
{
    let a = (if v < 0 {
        -v
    } else {
        v
    }) as nat;
    let whole = a / 10_000_000;
    let fracv = a % 10_000_000;
    let ws = crate::text::spec_dec_of(whole);
    let padded = crate::text::spec_fracn(fracv, 7);
    let fr = crate::text::spec_trim_zeros(padded);
    let cs = crate::text::spec_coord_of(v);
    lemma_dec_of_len(whole);
    lemma_dec_round_trip(whole);
    lemma_fracn_len(fracv, 7);
    lemma_pow10_values();
    lemma_fracn_value(fracv, 7);
    lemma_trim_value(padded, fracv as u64);
    lemma_trim_prefix(padded);
    assert forall|k: int| 0 <= k < ws.len() implies '0' <= #[trigger] ws[k] <= '9' by {
        lemma_dec_of_digits(whole, k);
    }
    assert forall|k: int| 0 <= k < fr.len() implies '0' <= #[trigger] fr[k] <= '9' by {
        assert(fr[k] == padded[k]);
        lemma_fracn_digits(fracv, 7, k);
    }
    let tail = if fr.len() == 0 {
        Seq::<char>::empty()
    } else {
        seq!['.'] + fr
    };
    let body = ws + tail;
    if v < 0 {
        assert(cs == seq!['-'] + ws + tail);
        assert(cs[0] == '-');
        assert(cs.drop_first() =~= body);
    } else {
        assert(cs == Seq::<char>::empty() + ws + tail);
        assert(cs =~= body);
        assert(cs[0] == ws[0]);
        assert(cs[0] != '-');
    }
    if fr.len() == 0 {
        assert(body =~= ws);
        assert(fracv == 0);
        lemma_find_ch_found(body, '.', 0, body.len() as int);
        assert(body.take(body.len() as int) =~= ws);
        assert(whole * 10_000_000 + 0 * spec_pow10(7) == a) by (nonlinear_arith)
            requires
                whole == a / 10_000_000,
                a % 10_000_000 == 0,
        ;
    } else {
        assert forall|k: int| 0 <= k < body.len() && k != ws.len() implies #[trigger] body[k]
            != '.' by {
            if k < ws.len() {
                assert(body[k] == ws[k]);
            } else {
                assert(body[k] == fr[k - ws.len() - 1]);
            }
        }
        assert(body[ws.len() as int] == '.');
        lemma_find_ch_found(body, '.', 0, ws.len() as int);
        assert(body.take(ws.len() as int) =~= ws);
        assert(body.skip(ws.len() as int + 1) =~= fr);
        let f = spec_parse_dec_u64(fr)->0;
        assert(f as nat * spec_pow10((7 - fr.len()) as nat) == fracv);
        assert(whole * 10_000_000 + fracv == a);
    }
}


/// Reading back a written signed decimal yields the value: the decoder
/// inverts the writer on every identifier an element can carry.
pub proof fn lemma_dec_int_round_trip(n: int)
    requires
        i64::MIN <= n <= i64::MAX,
    ensures
        crate::text::spec_parse_dec_i64(crate::text::spec_dec_of_int(n)) == Option::Some(
            n as i64,
        ),
{
    let s = crate::text::spec_dec_of_int(n);
    if n < 0 {
        let m = (-n) as nat;
        lemma_dec_of_len(m);
        lemma_dec_round_trip(m);
        assert(s == seq!['-'] + crate::text::spec_dec_of(m));
        assert(s[0] == '-');
        assert(s.drop_first() =~= crate::text::spec_dec_of(m));
    } else {
        lemma_dec_of_len(n as nat);
        lemma_dec_round_trip(n as nat);
        assert(s == crate::text::spec_dec_of(n as nat));
        lemma_dec_of_digits(n as nat, 0);
        assert(s[0] != '-');
    }
}

} // verus!