//! Character-level utilities shared by the readers, writers and the filter
//! parser: conversions between strings and character vectors, and verified
//! decimal and hexadecimal parsing and formatting.

use vstd::prelude::*;

verus! {

use vstd::std_specs::iter::IteratorSpec;

broadcast use vstd::string::group_string_axioms;

/// The characters of `s`, in order.
pub fn str_to_chars(s: &str) -> (r: Vec<char>)
    ensures
        r@ == s@,
{
    let mut it = s.chars();
    let mut out: Vec<char> = Vec::new();
    loop
        invariant
            it.obeys_prophetic_iter_laws(),
            it.decrease() is Some,
            out@ + it.remaining() == s@,
        decreases it.decrease()->0,
    {
        match it.next() {
            Option::Some(c) => {
                out.push(c);
            },
            Option::None => {
                proof {
                    assert(out@ =~= s@);
                }
                return out;
            },
        }
        proof {
            assert(out@ + it.remaining() =~= s@);
        }
    }
}

/// Collects a vector of characters into a `String`.
///
/// Relies on `String`'s `FromIterator<char>`: collecting characters yields
/// the string of exactly those characters in order.
#[verifier::external_body]
pub fn chars_to_string(v: &Vec<char>) -> (r: String)
    ensures
        r@ == v@,
{
    v.iter().collect()
}

/// What `str::to_lowercase` returns: a function of the characters alone.
pub uninterp spec fn lower_of(s: Seq<char>) -> Seq<char>;

/// `c` lowered as ASCII: `A`..`Z` become `a`..`z`, all else is unchanged.
pub open spec fn ascii_lower_char(c: char) -> char {
    if 'A' <= c <= 'Z' {
        ((c as u8) + 32) as char
    } else {
        c
    }
}

/// `s` lowered character by character as ASCII.
pub open spec fn ascii_lower_of(s: Seq<char>) -> Seq<char> {
    s.map_values(|c: char| ascii_lower_char(c))
}

/// Relies on `str::to_lowercase`: the result depends on the characters
/// alone, and on an ASCII string it lowers each letter in place.
#[verifier::external_body]
pub fn lowercase(s: &str) -> (r: String)
    ensures
        r@ == lower_of(s@),
        vstd::string::is_ascii(s) ==> r@ == ascii_lower_of(s@),
{
    s.to_lowercase()
}

/// The value of `c` as a decimal digit, if it is one.
pub open spec fn spec_dec_digit(c: char) -> Option<u32> {
    if '0' <= c <= '9' {
        Option::Some((c as u32 - '0' as u32) as u32)
    } else {
        Option::None
    }
}

/// The value of `cs` read as an unsigned decimal numeral; `None` on an
/// empty numeral, a stray character, or overflow past `u64`.
pub open spec fn spec_parse_dec_u64(cs: Seq<char>) -> Option<u64>
    decreases cs.len(),
{
    if cs.len() == 0 {
        Option::None
    } else {
        let rest = cs.drop_last();
        let last = spec_dec_digit(cs[cs.len() - 1]);
        if last is None {
            Option::None
        } else if cs.len() == 1 {
            Option::Some(last->Some_0 as u64)
        } else {
            match spec_parse_dec_u64(rest) {
                Option::Some(hi) => if hi * 10 + last->Some_0 <= u64::MAX {
                    Option::Some((hi * 10 + last->Some_0) as u64)
                } else {
                    Option::None
                },
                Option::None => Option::None,
            }
        }
    }
}

/// The value of `cs` read as a signed decimal numeral with an optional
/// leading `-`; `None` outside `i64`'s range or on a malformed numeral.
pub open spec fn spec_parse_dec_i64(cs: Seq<char>) -> Option<i64> {
    if cs.len() >= 1 && cs[0] == '-' {
        match spec_parse_dec_u64(cs.drop_first()) {
            Option::Some(m) => if m <= 0x8000_0000_0000_0000u64 {
                Option::Some((-(m as int)) as i64)
            } else {
                Option::None
            },
            Option::None => Option::None,
        }
    } else {
        match spec_parse_dec_u64(cs) {
            Option::Some(m) => if m <= i64::MAX as u64 {
                Option::Some(m as i64)
            } else {
                Option::None
            },
            Option::None => Option::None,
        }
    }
}

/// The decimal value of `c`, matching `spec_dec_digit`.
pub fn dec_digit(c: char) -> (r: Option<u32>)
    ensures
        r == spec_dec_digit(c),
{
    if '0' <= c && c <= '9' {
        Option::Some(c as u32 - '0' as u32)
    } else {
        Option::None
    }
}

/// Reads `cs[from..to]` as an unsigned decimal numeral, as
/// `spec_parse_dec_u64` gives it.
pub fn parse_dec_u64(cs: &Vec<char>, from: usize, to: usize) -> (r: Option<u64>)
    requires
        from <= to <= cs@.len(),
    ensures
        r == spec_parse_dec_u64(cs@.subrange(from as int, to as int)),
{
    let ghost whole = cs@.subrange(from as int, to as int);
    if from == to {
        return Option::None;
    }
    let mut acc: u64 = 0;
    let mut i: usize = from;
    while i < to
        invariant
            from <= i <= to <= cs@.len(),
            whole == cs@.subrange(from as int, to as int),
            i > from ==> spec_parse_dec_u64(whole.take(i - from)) == Option::Some(acc),
            i == from ==> acc == 0,
        decreases to - i,
    {
        let d = match dec_digit(cs[i]) {
            Option::Some(d) => d,
            Option::None => {
                proof {
                    lemma_parse_dec_stray(whole, i - from);
                }
                return Option::None;
            },
        };
        proof {
            assert(whole.take(i - from + 1).drop_last() =~= whole.take(i - from));
            assert(whole.take(i - from + 1)[i - from] == cs@[i as int]);
        }
        if acc > (u64::MAX - d as u64) / 10 {
            proof {
                assert(acc * 10 + d > u64::MAX) by (nonlinear_arith)
                    requires
                        acc > (u64::MAX - d as u64) / 10,
                        d < 10,
                ;
                lemma_parse_dec_overflow(whole, i - from, acc, d);
            }
            return Option::None;
        }
        proof {
            assert(acc * 10 + d <= u64::MAX) by (nonlinear_arith)
                requires
                    acc <= (u64::MAX - d as u64) / 10,
                    d < 10,
            ;
        }
        acc = acc * 10 + d as u64;
        i = i + 1;
    }
    proof {
        assert(whole.take(to - from) =~= whole);
    }
    Option::Some(acc)
}

/// Once a stray character appears at `k`, no extension of the numeral
/// through `k` parses.
proof fn lemma_parse_dec_stray(cs: Seq<char>, k: int)
    requires
        0 <= k < cs.len(),
        spec_dec_digit(cs[k]) is None,
    ensures
        forall|j: int| k < j <= cs.len() ==> spec_parse_dec_u64(#[trigger] cs.take(j)) is None,
{
    assert forall|j: int| k < j <= cs.len() implies spec_parse_dec_u64(
        #[trigger] cs.take(j),
    ) is None by {
        lemma_parse_dec_dead(cs, k, j);
    }
}

/// A numeral whose digit at `k` is stray does not parse at any cut past `k`.
proof fn lemma_parse_dec_dead(cs: Seq<char>, k: int, j: int)
    requires
        0 <= k < j <= cs.len(),
        spec_dec_digit(cs[k]) is None,
    ensures
        spec_parse_dec_u64(cs.take(j)) is None,
    decreases j,
{
    if j == k + 1 {
        assert(cs.take(j)[j - 1] == cs[k]);
    } else {
        lemma_parse_dec_dead(cs, k, j - 1);
        assert(cs.take(j).drop_last() =~= cs.take(j - 1));
    }
}

/// A step past `u64` range poisons every longer cut.
proof fn lemma_parse_dec_overflow(cs: Seq<char>, k: int, acc: u64, d: u32)
    requires
        0 < k < cs.len(),
        spec_parse_dec_u64(cs.take(k)) == Option::Some(acc),
        spec_dec_digit(cs[k]) == Option::Some(d),
        acc * 10 + d > u64::MAX,
    ensures
        forall|j: int| k < j <= cs.len() ==> spec_parse_dec_u64(#[trigger] cs.take(j)) is None,
{
    assert(cs.take(k + 1).drop_last() =~= cs.take(k));
    assert(cs.take(k + 1)[k] == cs[k]);
    assert(spec_parse_dec_u64(cs.take(k + 1)) is None);
    assert forall|j: int| k + 1 < j <= cs.len() implies spec_parse_dec_u64(
        #[trigger] cs.take(j),
    ) is None by {
        lemma_parse_dec_overflow_dead(cs, k + 1, j);
    }
}

/// Helper for `lemma_parse_dec_overflow`, one cut at a time.
proof fn lemma_parse_dec_overflow_dead(cs: Seq<char>, k: int, j: int)
    requires
        0 < k < j <= cs.len(),
        spec_parse_dec_u64(cs.take(k)) is None,
        cs.take(k).len() > 0,
    ensures
        spec_parse_dec_u64(cs.take(j)) is None,
    decreases j,
{
    if j > k + 1 {
        lemma_parse_dec_overflow_dead(cs, k, j - 1);
    }
    assert(cs.take(j).drop_last() =~= cs.take(j - 1));
}

/// Reads `cs[from..to]` as a signed decimal numeral, as
/// `spec_parse_dec_i64` gives it.
pub fn parse_dec_i64(cs: &Vec<char>, from: usize, to: usize) -> (r: Option<i64>)
    requires
        from <= to <= cs@.len(),
    ensures
        r == spec_parse_dec_i64(cs@.subrange(from as int, to as int)),
{
    let ghost whole = cs@.subrange(from as int, to as int);
    if from < to && cs[from] == '-' {
        proof {
            assert(whole.drop_first() =~= cs@.subrange(from + 1, to as int));
        }
        match parse_dec_u64(cs, from + 1, to) {
            Option::Some(m) => {
                if m <= 0x8000_0000_0000_0000u64 {
                    if m == 0x8000_0000_0000_0000u64 {
                        Option::Some(i64::MIN)
                    } else {
                        Option::Some(-(m as i64))
                    }
                } else {
                    Option::None
                }
            },
            Option::None => Option::None,
        }
    } else {
        match parse_dec_u64(cs, from, to) {
            Option::Some(m) => {
                if m <= i64::MAX as u64 {
                    Option::Some(m as i64)
                } else {
                    Option::None
                }
            },
            Option::None => Option::None,
        }
    }
}

/// Whether `a` holds exactly the characters of `b`.
pub fn str_eq(a: &String, b: &str) -> (r: bool)
    ensures
        r == (a@ == b@),
{
    *a == b.to_owned()
}

/// The character a scalar value names, when it names one: every value
/// outside the surrogate range and at most 0x10FFFF.
pub open spec fn spec_char_from_u32(v: u32) -> Option<char> {
    if v < 0xD800 || (0xE000 <= v && v <= 0x10FFFF) {
        Option::Some(v as char)
    } else {
        Option::None
    }
}

/// Relies on `char::from_u32`: it returns the character of every scalar
/// value, and `None` exactly on surrogates and values past 0x10FFFF.
#[verifier::external_body]
pub fn char_from_u32(v: u32) -> (r: Option<char>)
    ensures
        r == spec_char_from_u32(v),
{
    char::from_u32(v)
}

/// `n` low decimal digits of `f`, zero-padded.
pub open spec fn spec_fracn(f: nat, n: nat) -> Seq<char>
    decreases n,
{
    if n == 0 {
        Seq::empty()
    } else {
        spec_fracn(f / 10, (n - 1) as nat) + seq![(('0' as u32) + (f % 10) as u32) as char]
    }
}

/// `s` without its trailing zero characters.
pub open spec fn spec_trim_zeros(s: Seq<char>) -> Seq<char>
    decreases s.len(),
{
    if s.len() > 0 && s[s.len() - 1] == '0' {
        spec_trim_zeros(s.drop_last())
    } else {
        s
    }
}

/// A coordinate held in ten-millionths of a degree, written in decimal: the
/// sign, the whole degrees, and the trimmed seven-digit fraction after a
/// point — omitted when zero.
pub open spec fn spec_coord_of(v: int) -> Seq<char> {
    let a = if v < 0 {
        -v
    } else {
        v
    };
    let whole = spec_dec_of((a / 10_000_000) as nat);
    let frac = spec_trim_zeros(spec_fracn((a % 10_000_000) as nat, 7));
    (if v < 0 {
        seq!['-']
    } else {
        Seq::<char>::empty()
    }) + whole + (if frac.len() == 0 {
        Seq::<char>::empty()
    } else {
        seq!['.'] + frac
    })
}

/// Appends the decimal form of the coordinate `v`, held in ten-millionths
/// of a degree, as `spec_coord_of` gives it.
pub fn push_coord(out: &mut Vec<char>, v: i64)
    requires
        -0x7fff_ffff_ffff_ffff <= v,
    ensures
        final(out)@ == old(out)@ + spec_coord_of(v as int),
{
    let a: u64 = if v < 0 {
        out.push('-');
        (-v) as u64
    } else {
        v as u64
    };
    let ghost signed = out@;
    proof {
        if v < 0 {
            assert(out@ =~= old(out)@ + seq!['-']);
        } else {
            assert(out@ =~= old(out)@ + Seq::<char>::empty());
        }
    }
    push_dec_u64(out, a / 10_000_000);
    let mut frac: Vec<char> = Vec::new();
    let mut m: u64 = a % 10_000_000;
    let mut k: usize = 0;
    while k < 7
        invariant
            k <= 7,
            frac@.len() == k,
            spec_fracn((a % 10_000_000) as nat, 7) == spec_fracn(m as nat, (7 - k) as nat)
                + frac@,
        decreases 7 - k,
    {
        let ghost frac0 = frac@;
        let d: u8 = (m % 10) as u8;
        // 48 is the code of '0'.
        let c: char = (48u8 + d) as char;
        frac.insert(0, c);
        proof {
            assert(frac@ =~= seq![c] + frac0);
            assert(spec_fracn(m as nat, (7 - k) as nat) =~= spec_fracn(
                (m / 10) as nat,
                (7 - (k + 1)) as nat,
            ) + seq![c]);
            assert(spec_fracn((m / 10) as nat, (7 - (k + 1)) as nat) + (seq![c] + frac0)
                =~= spec_fracn(m as nat, (7 - k) as nat) + frac0);
        }
        m = m / 10;
        k = k + 1;
    }
    proof {
        assert(spec_fracn(m as nat, 0) =~= Seq::<char>::empty());
        assert(Seq::<char>::empty() + frac@ =~= frac@);
    }
    while frac.len() > 0 && frac[frac.len() - 1] == '0'
        invariant
            spec_trim_zeros(spec_fracn((a % 10_000_000) as nat, 7)) == spec_trim_zeros(frac@),
        decreases frac@.len(),
    {
        let _ = frac.pop();
    }
    proof {
        assert(spec_trim_zeros(frac@) == frac@);
    }
    if frac.len() > 0 {
        out.push('.');
        let ghost dotted = out@;
        let mut i: usize = 0;
        while i < frac.len()
            invariant
                i <= frac@.len(),
                out@ == dotted + frac@.take(i as int),
            decreases frac@.len() - i,
        {
            out.push(frac[i]);
            proof {
                assert(dotted + frac@.take(i + 1) =~= (dotted + frac@.take(i as int)).push(
                    frac@[i as int],
                ));
            }
            i = i + 1;
        }
        proof {
            assert(frac@.take(frac@.len() as int) =~= frac@);
            assert(out@ =~= old(out)@ + spec_coord_of(v as int));
        }
    } else {
        proof {
            assert(out@ =~= old(out)@ + spec_coord_of(v as int));
        }
    }
}

/// The value of `c` as a hexadecimal digit, if it is one (either case).
pub open spec fn spec_hex_digit(c: char) -> Option<u32> {
    if '0' <= c <= '9' {
        Option::Some((c as u32 - '0' as u32) as u32)
    } else if 'a' <= c <= 'f' {
        Option::Some((c as u32 - 'a' as u32 + 10) as u32)
    } else if 'A' <= c <= 'F' {
        Option::Some((c as u32 - 'A' as u32 + 10) as u32)
    } else {
        Option::None
    }
}

/// The value of `cs` read as a hexadecimal numeral, folded left to right;
/// `None` on an empty numeral, a stray character, or overflow past `u32`.
pub open spec fn spec_parse_hex_u32(cs: Seq<char>) -> Option<u32>
    decreases cs.len(),
{
    if cs.len() == 0 {
        Option::None
    } else {
        let rest = cs.drop_last();
        let last = spec_hex_digit(cs[cs.len() - 1]);
        if last is None {
            Option::None
        } else if cs.len() == 1 {
            last
        } else {
            match spec_parse_hex_u32(rest) {
                Option::Some(hi) => if hi <= 0xFFF_FFFF {
                    Option::Some((hi * 16 + last->Some_0) as u32)
                } else {
                    Option::None
                },
                Option::None => Option::None,
            }
        }
    }
}

/// The hexadecimal digit for a value below 16, lower case.
pub open spec fn spec_hex_char(d: u32) -> char {
    if d < 10 {
        (('0' as u32) + d) as char
    } else {
        (('a' as u32) + (d - 10) as u32) as char
    }
}

/// `n` written as a hexadecimal numeral, lower case, no leading zeros.
pub open spec fn spec_hex_of(n: nat) -> Seq<char>
    decreases n,
{
    if n < 16 {
        seq![spec_hex_char(n as u32)]
    } else {
        spec_hex_of(n / 16) + seq![spec_hex_char((n % 16) as u32)]
    }
}

/// `n` written as a decimal numeral, no leading zeros.
pub open spec fn spec_dec_of(n: nat) -> Seq<char>
    decreases n,
{
    if n < 10 {
        seq![(('0' as u32) + n as u32) as char]
    } else {
        spec_dec_of(n / 10) + seq![(('0' as u32) + (n % 10) as u32) as char]
    }
}

/// `n` written as a decimal numeral with a leading `-` when negative.
pub open spec fn spec_dec_of_int(n: int) -> Seq<char> {
    if n < 0 {
        seq!['-'] + spec_dec_of((-n) as nat)
    } else {
        spec_dec_of(n as nat)
    }
}

/// The hexadecimal value of `c`, matching `spec_hex_digit`.
pub fn hex_digit(c: char) -> (r: Option<u32>)
    ensures
        r == spec_hex_digit(c),
{
    if '0' <= c && c <= '9' {
        Option::Some(c as u32 - '0' as u32)
    } else if 'a' <= c && c <= 'f' {
        Option::Some(c as u32 - 'a' as u32 + 10)
    } else if 'A' <= c && c <= 'F' {
        Option::Some(c as u32 - 'A' as u32 + 10)
    } else {
        Option::None
    }
}

/// Reads `cs[from..to]` as a hexadecimal numeral, as `spec_parse_hex_u32`
/// gives it.
pub fn parse_hex_u32(cs: &Vec<char>, from: usize, to: usize) -> (r: Option<u32>)
    requires
        from <= to <= cs@.len(),
    ensures
        r == spec_parse_hex_u32(cs@.subrange(from as int, to as int)),
{
    let ghost whole = cs@.subrange(from as int, to as int);
    if from == to {
        return Option::None;
    }
    let mut acc: u32 = 0;
    let mut i: usize = from;
    while i < to
        invariant
            from <= i <= to <= cs@.len(),
            whole == cs@.subrange(from as int, to as int),
            i > from ==> spec_parse_hex_u32(whole.take(i - from)) == Option::Some(acc),
            i == from ==> acc == 0,
        decreases to - i,
    {
        let d = match hex_digit(cs[i]) {
            Option::Some(d) => d,
            Option::None => {
                proof {
                    lemma_parse_hex_stray(whole, i - from);
                }
                return Option::None;
            },
        };
        proof {
            assert(whole.take(i - from + 1).drop_last() =~= whole.take(i - from));
            assert(whole.take(i - from + 1)[i - from] == cs@[i as int]);
        }
        if acc > 0xFFF_FFFF {
            proof {
                lemma_parse_hex_overflow(whole, i - from);
            }
            return Option::None;
        }
        acc = acc * 16 + d;
        i = i + 1;
    }
    proof {
        assert(whole.take(to - from) =~= whole);
    }
    Option::Some(acc)
}

/// Once a stray character appears at `k`, no extension of the numeral
/// through `k` parses.
proof fn lemma_parse_hex_stray(cs: Seq<char>, k: int)
    requires
        0 <= k < cs.len(),
        spec_hex_digit(cs[k]) is None,
    ensures
        forall|j: int| k < j <= cs.len() ==> spec_parse_hex_u32(#[trigger] cs.take(j)) is None,
    decreases cs.len(),
{
    assert forall|j: int| k < j <= cs.len() implies spec_parse_hex_u32(
        #[trigger] cs.take(j),
    ) is None by {
        lemma_parse_hex_dead(cs, k, j);
    }
}

/// A numeral whose digit at `k` is stray does not parse at any cut past `k`.
proof fn lemma_parse_hex_dead(cs: Seq<char>, k: int, j: int)
    requires
        0 <= k < j <= cs.len(),
        spec_hex_digit(cs[k]) is None,
    ensures
        spec_parse_hex_u32(cs.take(j)) is None,
    decreases j,
{
    if j == k + 1 {
        assert(cs.take(j)[j - 1] == cs[k]);
    } else {
        lemma_parse_hex_dead(cs, k, j - 1);
        assert(cs.take(j).drop_last() =~= cs.take(j - 1));
    }
}

/// A parsed prefix past `u32` range poisons every longer cut.
proof fn lemma_parse_hex_overflow(cs: Seq<char>, k: int)
    requires
        0 < k <= cs.len(),
        match spec_parse_hex_u32(cs.take(k)) {
            Option::Some(v) => v > 0xFFF_FFFF,
            Option::None => false,
        },
    ensures
        forall|j: int| k < j <= cs.len() ==> spec_parse_hex_u32(#[trigger] cs.take(j)) is None,
    decreases cs.len(),
{
    assert forall|j: int| k < j <= cs.len() implies spec_parse_hex_u32(
        #[trigger] cs.take(j),
    ) is None by {
        lemma_parse_hex_overflow_dead(cs, k, j);
    }
}

/// Helper for `lemma_parse_hex_overflow`, one cut at a time.
proof fn lemma_parse_hex_overflow_dead(cs: Seq<char>, k: int, j: int)
    requires
        0 < k < j <= cs.len(),
        match spec_parse_hex_u32(cs.take(k)) {
            Option::Some(v) => v > 0xFFF_FFFF,
            Option::None => false,
        },
    ensures
        spec_parse_hex_u32(cs.take(j)) is None,
    decreases j,
{
    if j > k + 1 {
        lemma_parse_hex_overflow_dead(cs, k, j - 1);
    }
    assert(cs.take(j).drop_last() =~= cs.take(j - 1));
}

/// Appends `n` in decimal to `out`, as `spec_dec_of` gives it.
pub fn push_dec_u64(out: &mut Vec<char>, n: u64)
    ensures
        final(out)@ == old(out)@ + spec_dec_of(n as nat),
{
    let mut digits: Vec<char> = Vec::new();
    let mut m: u64 = n;
    loop
        invariant_except_break
            digits@.len() == 0 ==> m == n,
            digits@.len() > 0 ==> m > 0 && spec_dec_of(n as nat) == spec_dec_of(m as nat)
                + digits@,
        ensures
            digits@ == spec_dec_of(n as nat),
        decreases m,
    {
        let ghost digits0 = digits@;
        let d: u8 = (m % 10) as u8;
        // 48 is the code of '0'.
        let c: char = (48u8 + d) as char;
        digits.insert(0, c);
        proof {
            assert(digits@ =~= seq![c] + digits0);
            assert(c == spec_dec_of((m % 10) as nat)[0]);
            if m >= 10 {
                assert(spec_dec_of(m as nat) =~= spec_dec_of((m / 10) as nat) + seq![c]);
                assert(spec_dec_of((m / 10) as nat) + (seq![c] + digits0) =~= spec_dec_of(
                    m as nat,
                ) + digits0);
            } else {
                assert(spec_dec_of(m as nat) =~= seq![c]);
                assert(seq![c] + digits0 =~= spec_dec_of(m as nat) + digits0);
            }
            if digits0.len() == 0 {
                assert(spec_dec_of(n as nat) + digits0 =~= spec_dec_of(n as nat));
            }
        }
        m = m / 10;
        if m == 0 {
            proof {
                assert(spec_dec_of(n as nat) + Seq::<char>::empty() =~= spec_dec_of(n as nat));
            }
            break;
        }
    }
    let mut i: usize = 0;
    while i < digits.len()
        invariant
            i <= digits@.len(),
            digits@ == spec_dec_of(n as nat),
            out@ == old(out)@ + digits@.take(i as int),
        decreases digits@.len() - i,
    {
        out.push(digits[i]);
        proof {
            assert(old(out)@ + digits@.take(i + 1) =~= (old(out)@ + digits@.take(i as int)).push(
                digits@[i as int],
            ));
        }
        i = i + 1;
    }
    proof {
        assert(digits@.take(digits@.len() as int) =~= digits@);
    }
}

/// Appends `n` in decimal to `out`, with a `-` sign when negative.
pub fn push_dec_i64(out: &mut Vec<char>, n: i64)
    ensures
        final(out)@ == old(out)@ + spec_dec_of_int(n as int),
{
    if n < 0 {
        out.push('-');
        let m: u64 = if n == i64::MIN {
            0x8000_0000_0000_0000u64
        } else {
            (-n) as u64
        };
        push_dec_u64(out, m);
        proof {
            assert(old(out)@.push('-') =~= old(out)@ + seq!['-']);
            assert(old(out)@ + seq!['-'] + spec_dec_of(m as nat) =~= old(out)@ + (seq!['-']
                + spec_dec_of(m as nat)));
        }
    } else {
        push_dec_u64(out, n as u64);
    }
}

/// Appends `n` in lower-case hexadecimal to `out`, as `spec_hex_of` gives
/// it.
pub fn push_hex_u32(out: &mut Vec<char>, n: u32)
    ensures
        final(out)@ == old(out)@ + spec_hex_of(n as nat),
{
    let mut digits: Vec<char> = Vec::new();
    let mut m: u32 = n;
    loop
        invariant_except_break
            digits@.len() == 0 ==> m == n,
            digits@.len() > 0 ==> m > 0 && spec_hex_of(n as nat) == spec_hex_of(m as nat)
                + digits@,
        ensures
            digits@ == spec_hex_of(n as nat),
        decreases m,
    {
        let ghost digits0 = digits@;
        let d: u8 = (m % 16) as u8;
        // 48 is the code of '0'; 97 is the code of 'a'.
        let c: char = if d < 10 {
            (48u8 + d) as char
        } else {
            (97u8 + (d - 10)) as char
        };
        digits.insert(0, c);
        proof {
            assert(c == spec_hex_char((m % 16) as u32));
            assert(digits@ =~= seq![c] + digits0);
            if m >= 16 {
                assert(spec_hex_of(m as nat) =~= spec_hex_of((m / 16) as nat) + seq![c]);
                assert(spec_hex_of((m / 16) as nat) + (seq![c] + digits0) =~= spec_hex_of(
                    m as nat,
                ) + digits0);
            } else {
                assert(spec_hex_of(m as nat) =~= seq![c]);
                assert(seq![c] + digits0 =~= spec_hex_of(m as nat) + digits0);
            }
            if digits0.len() == 0 {
                assert(spec_hex_of(n as nat) + digits0 =~= spec_hex_of(n as nat));
            }
        }
        m = m / 16;
        if m == 0 {
            proof {
                assert(spec_hex_of(n as nat) + Seq::<char>::empty() =~= spec_hex_of(n as nat));
            }
            break;
        }
    }
    let mut i: usize = 0;
    while i < digits.len()
        invariant
            i <= digits@.len(),
            digits@ == spec_hex_of(n as nat),
            out@ == old(out)@ + digits@.take(i as int),
        decreases digits@.len() - i,
    {
        out.push(digits[i]);
        proof {
            assert(old(out)@ + digits@.take(i + 1) =~= (old(out)@ + digits@.take(i as int)).push(
                digits@[i as int],
            ));
        }
        i = i + 1;
    }
    proof {
        assert(digits@.take(digits@.len() as int) =~= digits@);
    }
}

} // verus!
