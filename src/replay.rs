//! The replay file parser: newline-separated lines, each
//! `<tick> <deviation> <column>...`, where lines starting with `H` are headers.
use vstd::prelude::*;
use crate::score::ReplayEvent;

verus! {

pub open spec fn is_digit(b: u8) -> bool {
    48 <= b <= 57
}

pub open spec fn all_digits(s: Seq<u8>) -> bool {
    forall|i: int| 0 <= i < s.len() ==> is_digit(s[i])
}

/// The value of a string of decimal digits.
pub open spec fn digits_value(s: Seq<u8>) -> nat
    decreases s.len(),
{
    if s.len() == 0 {
        0
    } else {
        digits_value(s.drop_last()) * 10 + (s.last() - 48) as nat
    }
}

pub open spec fn pow10(n: nat) -> nat
    decreases n,
{
    if n == 0 {
        1
    } else {
        10 * pow10((n - 1) as nat)
    }
}

/// Number of leading bytes of `s` that satisfy `p`.
pub open spec fn span(s: Seq<u8>, p: spec_fn(u8) -> bool) -> nat
    decreases s.len(),
{
    if s.len() == 0 {
        0
    } else if p(s[0]) {
        1 + span(s.subrange(1, s.len() as int), p)
    } else {
        0
    }
}

pub open spec fn not_space(b: u8) -> bool {
    b != 32
}

/// A tick: a non-empty string of decimal digits whose value fits in `u64`.
pub open spec fn tick_value(t: Seq<u8>) -> Option<u64> {
    if t.len() > 0 && all_digits(t) && digits_value(t) <= u64::MAX {
        Some(digits_value(t) as u64)
    } else {
        None
    }
}

/// The first nine fraction digits `f` in nanoseconds; later ones are dropped.
pub open spec fn fraction_ns(f: Seq<u8>) -> nat {
    let m = if f.len() <= 9 { f.len() } else { 9 };
    digits_value(f.subrange(0, m as int)) * pow10((9 - m) as nat)
}

/// An unsigned decimal number of seconds, `digits [. digits]` with at least one
/// digit, in nanoseconds.
pub open spec fn unsigned_ns(body: Seq<u8>) -> Option<int> {
    let k = span(body, |b: u8| is_digit(b)) as int;
    let rest = body.subrange(k, body.len() as int);
    let f = if rest.len() == 0 {
        Seq::empty()
    } else {
        rest.subrange(1, rest.len() as int)
    };
    if (rest.len() > 0 && (rest[0] != 46 || !all_digits(f))) || k + f.len() == 0 {
        None
    } else {
        Some((digits_value(body.subrange(0, k)) * 1_000_000_000 + fraction_ns(f)) as int)
    }
}

/// A signed decimal number of seconds, in nanoseconds, where it fits in `i64`.
pub open spec fn deviation_ns(t: Seq<u8>) -> Option<i64> {
    let signed = if t.len() > 0 && t[0] == 45 {
        match unsigned_ns(t.subrange(1, t.len() as int)) {
            Some(v) => Some(-v),
            None => None,
        }
    } else if t.len() > 0 && t[0] == 43 {
        unsigned_ns(t.subrange(1, t.len() as int))
    } else {
        unsigned_ns(t)
    };
    match signed {
        Some(v) => if i64::MIN <= v <= i64::MAX {
            Some(v as i64)
        } else {
            None
        },
        None => None,
    }
}

/// The column that a leading byte names: the byte minus `'0'`, wrapping.
pub open spec fn column_of(b: u8) -> u8 {
    if b >= 48 {
        (b - 48) as u8
    } else {
        (b + 208) as u8
    }
}

/// The event of one line, if the line is a data line with three tokens (split
/// at the first two spaces), a tick, a deviation and a non-empty rest.
pub open spec fn parse_line(l: Seq<u8>) -> Option<ReplayEvent> {
    let a = span(l, |b: u8| not_space(b)) as int;
    if l.len() == 0 || l[0] == 72 || a == l.len() {
        None
    } else {
        let rest = l.subrange(a + 1, l.len() as int);
        let b = span(rest, |x: u8| not_space(x)) as int;
        if b == rest.len() || b + 1 == rest.len() {
            None
        } else {
            match (tick_value(l.subrange(0, a)), deviation_ns(rest.subrange(0, b))) {
                (Some(t), Some(d)) => Some(
                    ReplayEvent { tick: t, deviation: d, column: column_of(rest[b + 1]) },
                ),
                _ => None,
            }
        }
    }
}

/// The lines of `s`, split at each newline; a newline at the end leaves an
/// empty last line.
pub open spec fn lines(s: Seq<u8>) -> Seq<Seq<u8>>
    decreases s.len(),
{
    if s.len() == 0 {
        seq![Seq::empty()]
    } else {
        let prev = lines(s.drop_last());
        if s.last() == 10 {
            prev.push(Seq::empty())
        } else {
            prev.drop_last().push(prev.last().push(s.last()))
        }
    }
}

/// The events of a sequence of lines, in order.
pub open spec fn events_of_lines(ls: Seq<Seq<u8>>) -> Seq<ReplayEvent>
    decreases ls.len(),
{
    if ls.len() == 0 {
        Seq::empty()
    } else {
        let prev = events_of_lines(ls.drop_last());
        match parse_line(ls.last()) {
            Some(e) => prev.push(e),
            None => prev,
        }
    }
}

/// The events of a whole replay file.
pub open spec fn replay_events(s: Seq<u8>) -> Seq<ReplayEvent> {
    events_of_lines(lines(s))
}

proof fn lemma_lines_nonempty(s: Seq<u8>)
    ensures
        lines(s).len() >= 1,
    decreases s.len(),
{
    if s.len() > 0 {
        lemma_lines_nonempty(s.drop_last());
    }
}

proof fn lemma_span(s: Seq<u8>, p: spec_fn(u8) -> bool, i: int)
    requires
        0 <= i <= s.len(),
        forall|k: int| 0 <= k < i ==> p(s[k]),
        i == s.len() || !p(s[i]),
    ensures
        span(s, p) == i,
    decreases i,
{
    if i > 0 {
        let t = s.subrange(1, s.len() as int);
        assert forall|k: int| 0 <= k < i - 1 implies p(t[k]) by {
            assert(t[k] == s[k + 1]);
        }
        if i < s.len() {
            assert(t[i - 1] == s[i]);
        }
        lemma_span(t, p, i - 1);
    }
}

/// Relies on `btoi::btou`: a non-empty string of ASCII digits whose value fits
/// gives that value; anything else an error.
#[verifier::external_body]
fn parse_tick(t: &[u8]) -> (r: Option<u64>)
    ensures
        r == tick_value(t@),
{
    btoi::btou::<u64>(t).ok()
}

/// The first index at or after `from` and before `to` whose byte is a space,
/// or `to`.
fn find_space(s: &[u8], from: usize, to: usize) -> (r: usize)
    requires
        from <= to <= s@.len(),
    ensures
        from <= r <= to,
        r - from == span(s@.subrange(from as int, to as int), |b: u8| not_space(b)),
{
    let mut i = from;
    while i < to && s[i] != 32
        invariant
            from <= i <= to <= s@.len(),
            forall|k: int| from <= k < i ==> s@[k] != 32,
        decreases to - i,
    {
        i = i + 1;
    }
    proof {
        let t = s@.subrange(from as int, to as int);
        assert forall|k: int| 0 <= k < i - from implies not_space(t[k]) by {
            assert(t[k] == s@[from + k]);
        }
        if i < to {
            assert(t[i - from] == s@[i as int]);
        }
        lemma_span(t, |b: u8| not_space(b), i - from);
    }
    i
}

/// The first index at or after `from` and before `to` whose byte is no digit,
/// or `to`.
fn find_non_digit(s: &[u8], from: usize, to: usize) -> (r: usize)
    requires
        from <= to <= s@.len(),
    ensures
        from <= r <= to,
        r - from == span(s@.subrange(from as int, to as int), |b: u8| is_digit(b)),
        all_digits(s@.subrange(from as int, r as int)),
        r < to ==> !is_digit(s@[r as int]),
{
    let mut i = from;
    while i < to && 48 <= s[i] && s[i] <= 57
        invariant
            from <= i <= to <= s@.len(),
            forall|k: int| from <= k < i ==> is_digit(s@[k]),
        decreases to - i,
    {
        i = i + 1;
    }
    proof {
        let t = s@.subrange(from as int, to as int);
        assert forall|k: int| 0 <= k < i - from implies is_digit(t[k]) by {
            assert(t[k] == s@[from + k]);
        }
        if i < to {
            assert(t[i - from] == s@[i as int]);
        }
        lemma_span(t, |b: u8| is_digit(b), i - from);
    }
    i
}

const VALUE_CAP: u64 = 10_000_000_000;

/// The value of the digits in `s[from..to]`, or `VALUE_CAP` where it is larger.
fn capped_value(s: &[u8], from: usize, to: usize) -> (r: u64)
    requires
        from <= to <= s@.len(),
        all_digits(s@.subrange(from as int, to as int)),
    ensures
        r == if digits_value(s@.subrange(from as int, to as int)) < VALUE_CAP {
            digits_value(s@.subrange(from as int, to as int))
        } else {
            VALUE_CAP as nat
        },
{
    let mut acc: u64 = 0;
    let mut i = from;
    while i < to
        invariant
            from <= i <= to <= s@.len(),
            all_digits(s@.subrange(from as int, to as int)),
            acc == if digits_value(s@.subrange(from as int, i as int)) < VALUE_CAP {
                digits_value(s@.subrange(from as int, i as int))
            } else {
                VALUE_CAP as nat
            },
        decreases to - i,
    {
        let ghost pre = s@.subrange(from as int, i as int);
        let ghost post = s@.subrange(from as int, i as int + 1);
        assert(post.drop_last() =~= pre);
        assert(s@.subrange(from as int, to as int)[i - from] == s@[i as int]);
        let d = (s[i] - 48) as u64;
        let next = acc * 10 + d;
        acc = if next < VALUE_CAP {
            next
        } else {
            VALUE_CAP
        };
        i = i + 1;
    }
    acc
}

/// Nanoseconds of the fraction digits `s[from..to]`.
fn fraction_value(s: &[u8], from: usize, to: usize) -> (r: u64)
    requires
        from <= to <= s@.len(),
        all_digits(s@.subrange(from as int, to as int)),
    ensures
        r == fraction_ns(s@.subrange(from as int, to as int)),
        r < 1_000_000_000,
{
    let m: usize = if to - from <= 9 {
        to - from
    } else {
        9
    };
    let ghost f = s@.subrange(from as int, to as int);
    assert(f.subrange(0, m as int) =~= s@.subrange(from as int, from + m));
    let mut acc: u64 = 0;
    let mut i: usize = 0;
    while i < m
        invariant
            m <= 9,
            from + m <= to <= s@.len(),
            f == s@.subrange(from as int, to as int),
            all_digits(f),
            0 <= i <= m,
            acc == digits_value(f.subrange(0, i as int)),
            acc < pow10(i as nat),
        decreases m - i,
    {
        assert(f.subrange(0, i as int + 1).drop_last() =~= f.subrange(0, i as int));
        assert(f[i as int] == s@[from + i]);
        let d = (s[from + i] - 48) as u64;
        proof {
            lemma_pow10_split(i as nat);
        }
        acc = acc * 10 + d;
        i = i + 1;
    }
    proof {
        lemma_pow10_split(0);
        assert(i == m);
        assert(acc == digits_value(f.subrange(0, m as int)) * pow10(0nat));
    }
    let mut scale: usize = m;
    while scale < 9
        invariant
            m <= scale <= 9,
            acc == digits_value(f.subrange(0, m as int)) * pow10((scale - m) as nat),
            acc < pow10(scale as nat),
        decreases 9 - scale,
    {
        proof {
            lemma_pow10_split(scale as nat);
            lemma_pow10_split((scale - m) as nat);
            assert(((scale + 1 - m) as nat) == ((scale - m) as nat) + 1);
            let dv = digits_value(f.subrange(0, m as int));
            let k = pow10((scale - m) as nat);
            assert(dv * k * 10 == dv * (10 * k)) by (nonlinear_arith);
        }
        acc = acc * 10;
        scale = scale + 1;
    }
    proof {
        lemma_pow10_split(9);
    }
    acc
}

proof fn lemma_pow10_split(i: nat)
    requires
        i <= 9,
    ensures
        pow10(i) <= 1_000_000_000nat,
        pow10(i + 1) == 10 * pow10(i),
        pow10(0) == 1,
        pow10(9) == 1_000_000_000,
    decreases 9 - i,
{
    reveal_with_fuel(pow10, 10);
    if i < 9 {
        lemma_pow10_split(i + 1);
    }
}

const MAGNITUDE_CAP: u128 = 10_000_000_000_000_000_000;

/// The unsigned number `s[start..to]` in nanoseconds, exact below
/// `MAGNITUDE_CAP`.
#[verifier::rlimit(50)]
fn unsigned_at(s: &[u8], start: usize, to: usize) -> (r: Option<u128>)
    requires
        start <= to <= s@.len(),
    ensures
        r.is_some() == unsigned_ns(s@.subrange(start as int, to as int)).is_some(),
        r.is_some() ==> {
            let v = unsigned_ns(s@.subrange(start as int, to as int)).unwrap();
            &&& (v < MAGNITUDE_CAP ==> r.unwrap() == v)
            &&& (v >= MAGNITUDE_CAP ==> r.unwrap() >= MAGNITUDE_CAP && r.unwrap() <= v)
        },
{
    let ghost body = s@.subrange(start as int, to as int);
    let k = find_non_digit(s, start, to);
    let ghost rest = body.subrange((k - start) as int, body.len() as int);
    assert(rest =~= s@.subrange(k as int, to as int));
    assert(body.subrange(0, (k - start) as int) =~= s@.subrange(start as int, k as int));
    let mut frac_from = k;
    if k < to {
        if s[k] != 46 {
            return None;
        }
        frac_from = k + 1;
        let e = find_non_digit(s, frac_from, to);
        assert(rest.subrange(1, rest.len() as int) =~= s@.subrange(frac_from as int, to as int));
        if e < to {
            assert(s@.subrange(frac_from as int, to as int)[e - frac_from] == s@[e as int]);
            return None;
        }
        assert(s@.subrange(frac_from as int, e as int) =~= s@.subrange(frac_from as int, to as int));
    } else {
        assert(s@.subrange(frac_from as int, to as int) =~= Seq::<u8>::empty());
        assert(rest.len() == 0);
    }
    if k == start && frac_from == to {
        return None;
    }
    let whole = capped_value(s, start, k);
    let frac = fraction_value(s, frac_from, to);
    Some(whole as u128 * 1_000_000_000 + frac as u128)
}

/// The deviation token `s[from..to]` in nanoseconds.
fn parse_deviation(s: &[u8], from: usize, to: usize) -> (r: Option<i64>)
    requires
        from <= to <= s@.len(),
    ensures
        r == deviation_ns(s@.subrange(from as int, to as int)),
{
    let ghost t = s@.subrange(from as int, to as int);
    let negative = from < to && s[from] == 45;
    let signed = from < to && (s[from] == 45 || s[from] == 43);
    let start = if signed {
        from + 1
    } else {
        from
    };
    assert(signed ==> t.subrange(1, t.len() as int) =~= s@.subrange(start as int, to as int));
    assert(!signed ==> t =~= s@.subrange(start as int, to as int));
    let magnitude = match unsigned_at(s, start, to) {
        Some(m) => m,
        None => {
            return None;
        },
    };
    if negative {
        if magnitude > 0x8000_0000_0000_0000 {
            return None;
        }
        Some((-(magnitude as i128)) as i64)
    } else {
        if magnitude > 0x7fff_ffff_ffff_ffff {
            return None;
        }
        Some(magnitude as i64)
    }
}

/// The event of the line `s[from..to]`, if it is a data line.
fn parse_line_at(s: &[u8], from: usize, to: usize) -> (r: Option<ReplayEvent>)
    requires
        from <= to <= s@.len(),
    ensures
        r == parse_line(s@.subrange(from as int, to as int)),
{
    let ghost l = s@.subrange(from as int, to as int);
    if from == to || s[from] == 72 {
        return None;
    }
    let a = find_space(s, from, to);
    if a == to {
        return None;
    }
    let ghost rest = l.subrange(a - from + 1, l.len() as int);
    assert(rest =~= s@.subrange(a + 1, to as int));
    let b = find_space(s, a + 1, to);
    if b == to || b + 1 == to {
        return None;
    }
    assert(l.subrange(0, a - from) =~= s@.subrange(from as int, a as int));
    assert(rest.subrange(0, b - a - 1) =~= s@.subrange(a + 1, b as int));
    assert(rest[b - a - 1 + 1] == s@[b + 1]);
    let tick = parse_tick(&s[from..a]);
    let deviation = parse_deviation(s, a + 1, b);
    match (tick, deviation) {
        (Some(t), Some(d)) => {
            let c = s[b + 1];
            let column = if c >= 48 {
                c - 48
            } else {
                c + 208
            };
            Some(ReplayEvent { tick: t, deviation: d, column })
        },
        _ => None,
    }
}

/// Parses a replay file into its events, in file order. Header lines (first
/// byte `H`), empty lines and lines whose tick or deviation does not parse are
/// skipped, and so are lines with fewer than three tokens or an empty third
/// token. A deviation is read with at most nine fraction digits; an exponent
/// or a special value such as `NaN` makes the line unparsable.
pub fn parse_replay(bytes: &[u8]) -> (r: Vec<ReplayEvent>)
    ensures
        r@ == replay_events(bytes@),
{
    let mut events: Vec<ReplayEvent> = Vec::new();
    let mut start: usize = 0;
    let mut i: usize = 0;
    assert(bytes@.subrange(0, 0) =~= Seq::<u8>::empty());
    while i < bytes.len()
        invariant
            0 <= start <= i <= bytes@.len(),
            ({
                let ls = lines(bytes@.subrange(0, i as int));
                &&& ls.len() >= 1
                &&& ls.last() == bytes@.subrange(start as int, i as int)
                &&& events@ == events_of_lines(ls.drop_last())
            }),
        decreases bytes@.len() - i,
    {
        let ghost pre = bytes@.subrange(0, i as int);
        let ghost post = bytes@.subrange(0, i as int + 1);
        assert(post.drop_last() =~= pre);
        assert(post.last() == bytes@[i as int]);
        proof {
            lemma_lines_nonempty(pre);
        }
        if bytes[i] == 10 {
            let e = parse_line_at(bytes, start, i);
            match e {
                Some(ev) => events.push(ev),
                None => {},
            }
            assert(lines(post).drop_last() =~= lines(pre));
            assert(bytes@.subrange(i + 1, i + 1) =~= Seq::<u8>::empty());
            start = i + 1;
        } else {
            assert(lines(post).drop_last() =~= lines(pre).drop_last());
            assert(bytes@.subrange(start as int, i + 1) =~= bytes@.subrange(start as int, i as int).push(
                bytes@[i as int],
            ));
        }
        i = i + 1;
    }
    assert(bytes@.subrange(0, bytes@.len() as int) =~= bytes@);
    let last = parse_line_at(bytes, start, bytes.len());
    match last {
        Some(ev) => events.push(ev),
        None => {},
    }
    events
}

} // verus!
