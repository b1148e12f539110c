use vstd::prelude::*;

verus! {

/// The ASCII digit for `d` (lower-case letters above nine).
pub open spec fn digit_char(d: nat) -> u8 {
    if d < 10 {
        (48 + d) as u8
    } else {
        (87 + d) as u8
    }
}

/// The value of ASCII digit `c` in base `b` (10 or 16), if it is one.
pub open spec fn char_digit(c: u8, b: nat) -> Option<nat> {
    if 48 <= c <= 57 && (c - 48) < b {
        Some((c - 48) as nat)
    } else if b == 16 && 97 <= c <= 102 {
        Some((c - 87) as nat)
    } else if b == 16 && 65 <= c <= 70 {
        Some((c - 55) as nat)
    } else {
        None
    }
}

/// The digits of `n` in base `b`, most significant first, without leading
/// zeros.
pub open spec fn digits(n: nat, b: nat) -> Seq<u8>
    recommends
        b == 10 || b == 16,
    decreases n
    via digits_decreases
{
    if b < 2 || n < b {
        seq![digit_char(n)]
    } else {
        digits(n / b, b).push(digit_char(n % b))
    }
}

#[via_fn]
proof fn digits_decreases(n: nat, b: nat) {
    if !(b < 2 || n < b) {
        assert(n / b < n) by (nonlinear_arith)
            requires
                b >= 2,
                n >= b,
        ;
    }
}

/// Whether every byte of `s` is a digit in base `b`.
pub open spec fn all_digits(s: Seq<u8>, b: nat) -> bool {
    forall|i: int| 0 <= i < s.len() ==> (#[trigger] char_digit(s[i], b)) is Some
}

/// The number that the digits `s` spell in base `b`.
pub open spec fn value(s: Seq<u8>, b: nat) -> nat
    decreases s.len(),
{
    if s.len() == 0 {
        0
    } else {
        value(s.drop_last(), b) * b + char_digit(s.last(), b).unwrap_or(0)
    }
}

/// A number of at most `max` written in base `b` with at least one digit.
pub open spec fn parse_number(s: Seq<u8>, b: nat, max: nat) -> Option<nat> {
    if s.len() > 0 && all_digits(s, b) && value(s, b) <= max {
        Some(value(s, b))
    } else {
        None
    }
}

/// The index of the first `c` in `s`, or the length of `s` if there is none.
pub open spec fn find(s: Seq<u8>, c: u8) -> nat
    decreases s.len(),
{
    if s.len() == 0 {
        0
    } else if s[0] == c {
        0
    } else {
        1 + find(s.drop_first(), c)
    }
}

/// The numbers `vs` in base `b`, separated by `sep`.
pub open spec fn join(vs: Seq<nat>, sep: u8, b: nat) -> Seq<u8>
    decreases vs.len(),
{
    if vs.len() <= 1 {
        if vs.len() == 0 {
            Seq::empty()
        } else {
            digits(vs[0], b)
        }
    } else {
        digits(vs[0], b) + seq![sep] + join(vs.drop_first(), sep, b)
    }
}

/// Exactly `k` numbers of at most `max` in base `b`, separated by `sep`.
pub open spec fn parse_fields(s: Seq<u8>, sep: u8, b: nat, max: nat, k: nat) -> Option<Seq<nat>>
    decreases k,
{
    if k <= 1 {
        if k == 0 {
            None
        } else {
            match parse_number(s, b, max) {
                Some(v) => Some(seq![v]),
                None => None,
            }
        }
    } else {
        let p = find(s, sep);
        if p >= s.len() {
            None
        } else {
            match parse_number(s.subrange(0, p as int), b, max) {
                Some(v) => match parse_fields(s.subrange(p as int + 1, s.len() as int), sep, b, max, (k - 1) as nat) {
                    Some(rest) => Some(seq![v] + rest),
                    None => None,
                },
                None => None,
            }
        }
    }
}

/// A digit's character reads back as the digit.
pub proof fn lemma_digit_round_trip(d: nat, b: nat)
    requires
        b == 10 || b == 16,
        d < b,
    ensures
        char_digit(digit_char(d), b) == Some(d),
{
}

/// The digits of a number are digits, at least one, and spell the number.
pub proof fn lemma_digits(n: nat, b: nat)
    requires
        b == 10 || b == 16,
    ensures
        digits(n, b).len() >= 1,
        all_digits(digits(n, b), b),
        value(digits(n, b), b) == n,
    decreases n,
{
    if n < b {
        lemma_digit_round_trip(n, b);
        let s = digits(n, b);
        assert(s.drop_last() =~= Seq::<u8>::empty());
        assert(value(s.drop_last(), b) == 0);
        assert(0 * b == 0);
    } else {
        lemma_digits(n / b, b);
        lemma_digit_round_trip(n % b, b);
        let s = digits(n, b);
        assert(s.drop_last() =~= digits(n / b, b));
        assert(all_digits(s, b)) by {
            assert forall|i: int| 0 <= i < s.len() implies (#[trigger] char_digit(s[i], b)) is Some by {
                if i < s.len() - 1 {
                    assert(s[i] == digits(n / b, b)[i]);
                }
            }
        }
        assert(s.last() == digit_char(n % b));
        assert(n % b < b) by (nonlinear_arith)
            requires
                b > 0,
        ;
        assert(n == (n / b) * b + n % b) by (nonlinear_arith)
            requires
                b > 0,
        ;
        assert(value(s, b) == value(digits(n / b, b), b) * b + n % b);
    }
}

/// A byte that is no digit is not among the digits of a number.
pub proof fn lemma_digits_exclude(n: nat, b: nat, c: u8)
    requires
        b == 10 || b == 16,
        char_digit(c, b) is None,
    ensures
        !digits(n, b).contains(c),
{
    lemma_digits(n, b);
    if digits(n, b).contains(c) {
        let i = choose|i: int| 0 <= i < digits(n, b).len() && digits(n, b)[i] == c;
        assert(char_digit(digits(n, b)[i], b) is Some);
    }
}

/// `find` stops at the first `c` after a run without one.
pub proof fn lemma_find_after(x: Seq<u8>, c: u8, y: Seq<u8>)
    requires
        !x.contains(c),
    ensures
        find(x + seq![c] + y, c) == x.len(),
    decreases x.len(),
{
    let s = x + seq![c] + y;
    if x.len() == 0 {
        assert(s[0] == c);
    } else {
        assert(s[0] == x[0]);
        assert(x[0] != c) by {
            if x[0] == c {
                assert(x.contains(c));
            }
        }
        assert(s.drop_first() =~= x.drop_first() + seq![c] + y);
        assert(!x.drop_first().contains(c)) by {
            if x.drop_first().contains(c) {
                let i = choose|i: int| 0 <= i < x.drop_first().len() && x.drop_first()[i] == c;
                assert(x[i + 1] == c);
            }
        }
        lemma_find_after(x.drop_first(), c, y);
    }
}

/// `find` runs to the end of a sequence without `c`.
pub proof fn lemma_find_none(x: Seq<u8>, c: u8)
    requires
        !x.contains(c),
    ensures
        find(x, c) == x.len(),
    decreases x.len(),
{
    if x.len() > 0 {
        assert(x[0] != c) by {
            if x[0] == c {
                assert(x.contains(c));
            }
        }
        assert(!x.drop_first().contains(c)) by {
            if x.drop_first().contains(c) {
                let i = choose|i: int| 0 <= i < x.drop_first().len() && x.drop_first()[i] == c;
                assert(x[i + 1] == c);
            }
        }
        lemma_find_none(x.drop_first(), c);
    }
}

/// A number's own digits parse back to it.
pub proof fn lemma_parse_number_digits(n: nat, b: nat, max: nat)
    requires
        b == 10 || b == 16,
        n <= max,
    ensures
        parse_number(digits(n, b), b, max) == Some(n),
{
    lemma_digits(n, b);
}

/// Numbers written with `join` parse back to themselves.
pub proof fn lemma_parse_join(vs: Seq<nat>, sep: u8, b: nat, max: nat)
    requires
        b == 10 || b == 16,
        vs.len() >= 1,
        char_digit(sep, b) is None,
        forall|i: int| 0 <= i < vs.len() ==> #[trigger] vs[i] <= max,
    ensures
        parse_fields(join(vs, sep, b), sep, b, max, vs.len()) == Some(vs),
    decreases vs.len(),
{
    if vs.len() == 1 {
        lemma_parse_number_digits(vs[0], b, max);
        assert(seq![vs[0]] =~= vs);
    } else {
        let d = digits(vs[0], b);
        let rest = vs.drop_first();
        let s = join(vs, sep, b);
        assert(s == d + seq![sep] + join(rest, sep, b));
        lemma_digits_exclude(vs[0], b, sep);
        lemma_find_after(d, sep, join(rest, sep, b));
        lemma_digits(vs[0], b);
        assert(s.subrange(0, d.len() as int) =~= d);
        assert(s.subrange(d.len() as int + 1, s.len() as int) =~= join(rest, sep, b));
        lemma_parse_number_digits(vs[0], b, max);
        assert(forall|i: int| 0 <= i < rest.len() ==> #[trigger] rest[i] == vs[i + 1]);
        lemma_parse_join(rest, sep, b, max);
        assert(seq![vs[0]] + rest =~= vs);
    }
}

/// A joined run of numbers holds no byte that is neither a digit nor `sep`.
pub proof fn lemma_join_exclude(vs: Seq<nat>, sep: u8, b: nat, c: u8)
    requires
        b == 10 || b == 16,
        char_digit(c, b) is None,
        c != sep,
    ensures
        !join(vs, sep, b).contains(c),
    decreases vs.len(),
{
    if vs.len() == 1 {
        lemma_digits_exclude(vs[0], b, c);
    } else if vs.len() > 1 {
        lemma_digits_exclude(vs[0], b, c);
        lemma_join_exclude(vs.drop_first(), sep, b, c);
        let d = digits(vs[0], b);
        let t = join(vs.drop_first(), sep, b);
        let s = d + seq![sep] + t;
        if s.contains(c) {
            let i = choose|i: int| 0 <= i < s.len() && s[i] == c;
            if i < d.len() {
                assert(d[i] == c);
            } else if i > d.len() {
                assert(t[i - d.len() - 1] == c);
            }
        }
    }
}

/// Appending a number to a joined run appends a separator and its digits.
pub proof fn lemma_join_push(vs: Seq<nat>, v: nat, sep: u8, b: nat)
    requires
        vs.len() >= 1,
    ensures
        join(vs.push(v), sep, b) == join(vs, sep, b) + seq![sep] + digits(v, b),
    decreases vs.len(),
{
    let w = vs.push(v);
    if vs.len() == 1 {
        assert(w.drop_first() =~= seq![v]);
        assert(join(seq![v], sep, b) == digits(v, b));
    } else {
        assert(w.drop_first() =~= vs.drop_first().push(v));
        lemma_join_push(vs.drop_first(), v, sep, b);
        assert(join(w, sep, b) == digits(vs[0], b) + seq![sep] + join(w.drop_first(), sep, b));
        assert(join(vs, sep, b) == digits(vs[0], b) + seq![sep] + join(vs.drop_first(), sep, b));
        assert(join(w, sep, b) =~= join(vs, sep, b) + seq![sep] + digits(v, b));
    }
}

/// What `parse_fields` reads is `k` numbers, each at most `max`.
pub proof fn lemma_parse_fields_shape(s: Seq<u8>, sep: u8, b: nat, max: nat, k: nat)
    requires
        parse_fields(s, sep, b, max, k) is Some,
    ensures
        parse_fields(s, sep, b, max, k)->Some_0.len() == k,
        forall|i: int|
            0 <= i < k ==> #[trigger] parse_fields(s, sep, b, max, k)->Some_0[i] <= max,
    decreases k,
{
    if k > 1 {
        let p = find(s, sep);
        lemma_parse_fields_shape(s.subrange(p as int + 1, s.len() as int), sep, b, max, (k - 1) as nat);
    }
}

/// Whether every byte of `s` is ASCII.
pub open spec fn all_ascii(s: Seq<u8>) -> bool {
    forall|i: int| 0 <= i < s.len() ==> #[trigger] s[i] < 128
}

/// Joined numbers, with an ASCII separator, are ASCII.
pub proof fn lemma_join_ascii(vs: Seq<nat>, sep: u8, b: nat)
    requires
        b == 10 || b == 16,
        sep < 128,
    ensures
        all_ascii(join(vs, sep, b)),
    decreases vs.len(),
{
    if vs.len() >= 1 {
        lemma_digits(vs[0], b);
        let d = digits(vs[0], b);
        assert(all_ascii(d)) by {
            assert forall|i: int| 0 <= i < d.len() implies #[trigger] d[i] < 128 by {
                assert(char_digit(d[i], b) is Some);
            }
        }
        if vs.len() > 1 {
            lemma_join_ascii(vs.drop_first(), sep, b);
            let t = join(vs.drop_first(), sep, b);
            let s = d + seq![sep] + t;
            assert forall|i: int| 0 <= i < s.len() implies #[trigger] s[i] < 128 by {
                if i < d.len() {
                    assert(s[i] == d[i]);
                } else if i > d.len() {
                    assert(s[i] == t[i - d.len() - 1]);
                }
            }
        }
    }
}

/// Every byte of joined numbers is a digit or the separator.
pub proof fn lemma_join_chars(vs: Seq<nat>, sep: u8, b: nat)
    requires
        b == 10 || b == 16,
    ensures
        forall|i: int|
            0 <= i < join(vs, sep, b).len() ==> join(vs, sep, b)[i] == sep || (#[trigger] char_digit(
                join(vs, sep, b)[i],
                b,
            )) is Some,
    decreases vs.len(),
{
    if vs.len() >= 1 {
        lemma_digits(vs[0], b);
        let d = digits(vs[0], b);
        if vs.len() > 1 {
            lemma_join_chars(vs.drop_first(), sep, b);
            let t = join(vs.drop_first(), sep, b);
            let s = d + seq![sep] + t;
            assert forall|i: int| 0 <= i < s.len() implies s[i] == sep || (#[trigger] char_digit(
                s[i],
                b,
            )) is Some by {
                if i < d.len() {
                    assert(s[i] == d[i]);
                } else if i > d.len() {
                    assert(s[i] == t[i - d.len() - 1]);
                }
            }
        }
    }
}

/// A prefix of a run of digits spells no more than the whole run.
pub proof fn lemma_value_prefix(s: Seq<u8>, j: int, b: nat)
    requires
        all_digits(s, b),
        0 <= j <= s.len(),
        b >= 1,
    ensures
        value(s.take(j), b) <= value(s, b),
    decreases s.len(),
{
    if j < s.len() {
        let t = s.drop_last();
        assert(all_digits(t, b)) by {
            assert forall|i: int| 0 <= i < t.len() implies (#[trigger] char_digit(t[i], b)) is Some by {
                assert(t[i] == s[i]);
            }
        }
        lemma_value_prefix(t, j, b);
        assert(t.take(j) =~= s.take(j));
        assert(value(t, b) <= value(t, b) * b) by (nonlinear_arith)
            requires
                b >= 1,
        ;
    } else {
        assert(s.take(j) =~= s);
    }
}

/// The numbers of `v`, as mathematical integers.
pub open spec fn nats(v: Seq<u32>) -> Seq<nat> {
    v.map_values(|x: u32| x as nat)
}

/// Appends the digits of `n` in base `b`.
pub fn push_digits(out: &mut Vec<u8>, n: u32, b: u32)
    requires
        b == 10 || b == 16,
    ensures
        final(out)@ == old(out)@ + digits(n as nat, b as nat),
    decreases n,
{
    if n < b {
        let c: u8 = if n < 10 {
            48 + n as u8
        } else {
            87 + n as u8
        };
        out.push(c);
        assert(digits(n as nat, b as nat) == seq![c]);
    } else {
        push_digits(out, n / b, b);
        let d: u32 = n % b;
        let c: u8 = if d < 10 {
            48 + d as u8
        } else {
            87 + d as u8
        };
        out.push(c);
        assert(digits(n as nat, b as nat) == digits((n / b) as nat, b as nat).push(c));
    }
}

/// The value of ASCII digit `c` in base `b`, if it is one.
pub fn digit_value(c: u8, b: u32) -> (r: Option<u32>)
    requires
        b == 10 || b == 16,
    ensures
        r is Some <==> char_digit(c, b as nat) is Some,
        r is Some ==> r->Some_0 as nat == char_digit(c, b as nat)->Some_0,
        r is Some ==> r->Some_0 < b,
{
    if 48 <= c && c <= 57 && ((c - 48) as u32) < b {
        Some((c - 48) as u32)
    } else if b == 16 && 97 <= c && c <= 102 {
        Some((c - 87) as u32)
    } else if b == 16 && 65 <= c && c <= 70 {
        Some((c - 55) as u32)
    } else {
        None
    }
}

/// The index of the first `c` in `s[lo..hi]`, or `hi` if there is none.
pub fn find_byte(s: &Vec<u8>, c: u8, lo: usize, hi: usize) -> (r: usize)
    requires
        lo <= hi <= s@.len(),
    ensures
        r == lo + find(s@.subrange(lo as int, hi as int), c),
        lo <= r <= hi,
{
    let mut i: usize = lo;
    while i < hi
        invariant
            lo <= i <= hi <= s@.len(),
            !s@.subrange(lo as int, i as int).contains(c),
        decreases hi - i,
    {
        if s[i] == c {
            proof {
                let sub = s@.subrange(lo as int, hi as int);
                let x = s@.subrange(lo as int, i as int);
                let y = s@.subrange(i + 1, hi as int);
                assert(sub =~= x + seq![c] + y);
                lemma_find_after(x, c, y);
            }
            return i;
        }
        assert(!s@.subrange(lo as int, i + 1).contains(c)) by {
            let t = s@.subrange(lo as int, i + 1);
            if t.contains(c) {
                let j = choose|j: int| 0 <= j < t.len() && t[j] == c;
                if j < i - lo {
                    assert(s@.subrange(lo as int, i as int)[j] == c);
                }
            }
        }
        i = i + 1;
    }
    proof {
        lemma_find_none(s@.subrange(lo as int, hi as int), c);
    }
    hi
}

/// Reads `s[lo..hi]` as a number of at most `max` in base `b`.
pub fn parse_number_at(s: &Vec<u8>, lo: usize, hi: usize, b: u32, max: u32) -> (r: Option<u32>)
    requires
        lo <= hi <= s@.len(),
        b == 10 || b == 16,
        max <= 65535,
    ensures
        r is Some <==> parse_number(s@.subrange(lo as int, hi as int), b as nat, max as nat) is Some,
        r is Some ==> r->Some_0 as nat == parse_number(
            s@.subrange(lo as int, hi as int),
            b as nat,
            max as nat,
        )->Some_0,
{
    let ghost sub = s@.subrange(lo as int, hi as int);
    if lo == hi {
        return None;
    }
    let mut acc: u32 = 0;
    let mut i: usize = lo;
    while i < hi
        invariant
            lo <= i <= hi <= s@.len(),
            sub == s@.subrange(lo as int, hi as int),
            b == 10 || b == 16,
            max <= 65535,
            acc <= max,
            all_digits(sub.take(i - lo), b as nat),
            acc as nat == value(sub.take(i - lo), b as nat),
        decreases hi - i,
    {
        let d = match digit_value(s[i], b) {
            Some(d) => d,
            None => {
                assert(sub[i - lo] == s@[i as int]);
                assert(!all_digits(sub, b as nat));
                return None;
            },
        };
        let next: u32 = acc * b + d;
        let ghost t = sub.take(i - lo + 1);
        assert(t.drop_last() =~= sub.take(i - lo));
        assert(t.last() == s@[i as int]);
        assert(all_digits(t, b as nat)) by {
            assert forall|j: int| 0 <= j < t.len() implies (#[trigger] char_digit(t[j], b as nat)) is Some by {
                if j < t.len() - 1 {
                    assert(t[j] == sub.take(i - lo)[j]);
                }
            }
        }
        assert(next as nat == value(t, b as nat));
        if next > max {
            proof {
                if all_digits(sub, b as nat) {
                    lemma_value_prefix(sub, i - lo + 1, b as nat);
                }
            }
            return None;
        }
        acc = next;
        i = i + 1;
    }
    assert(sub.take(hi - lo) =~= sub);
    Some(acc)
}

/// Reads `s[lo..hi]` as exactly `k` numbers of at most `max` in base `b`,
/// separated by `sep`.
pub fn parse_fields_at(
    s: &Vec<u8>,
    lo: usize,
    hi: usize,
    sep: u8,
    b: u32,
    max: u32,
    k: usize,
) -> (r: Option<Vec<u32>>)
    requires
        lo <= hi <= s@.len(),
        b == 10 || b == 16,
        max <= 65535,
    ensures
        r is Some <==> parse_fields(
            s@.subrange(lo as int, hi as int),
            sep,
            b as nat,
            max as nat,
            k as nat,
        ) is Some,
        r is Some ==> nats(r->Some_0@) == parse_fields(
            s@.subrange(lo as int, hi as int),
            sep,
            b as nat,
            max as nat,
            k as nat,
        )->Some_0,
    decreases k,
{
    let ghost sub = s@.subrange(lo as int, hi as int);
    if k == 0 {
        return None;
    }
    if k == 1 {
        return match parse_number_at(s, lo, hi, b, max) {
            Some(v) => {
                let out = vec![v];
                assert(nats(out@) =~= seq![v as nat]);
                Some(out)
            },
            None => None,
        };
    }
    let p = find_byte(s, sep, lo, hi);
    if p >= hi {
        return None;
    }
    assert(sub.subrange(0, (p - lo) as int) =~= s@.subrange(lo as int, p as int));
    assert(sub.subrange((p - lo) as int + 1, sub.len() as int) =~= s@.subrange(p + 1, hi as int));
    let v = match parse_number_at(s, lo, p, b, max) {
        Some(v) => v,
        None => {
            return None;
        },
    };
    let mut rest = match parse_fields_at(s, p + 1, hi, sep, b, max, k - 1) {
        Some(rest) => rest,
        None => {
            return None;
        },
    };
    let ghost rest_v = rest@;
    let mut out = vec![v];
    out.append(&mut rest);
    assert(out@ =~= seq![v] + rest_v);
    assert(nats(out@) =~= seq![v as nat] + nats(rest_v));
    Some(out)
}

/// Appends the numbers `vs[lo..hi]` in base `b`, separated by `sep`.
pub fn push_joined(out: &mut Vec<u8>, vs: &Vec<u32>, lo: usize, hi: usize, sep: u8, b: u32)
    requires
        lo < hi <= vs@.len(),
        b == 10 || b == 16,
    ensures
        final(out)@ == old(out)@ + join(nats(vs@.subrange(lo as int, hi as int)), sep, b as nat),
{
    push_digits(out, vs[lo], b);
    assert(nats(vs@.subrange(lo as int, lo + 1)) =~= seq![vs@[lo as int] as nat]);
    let mut i: usize = lo + 1;
    while i < hi
        invariant
            lo < i <= hi <= vs@.len(),
            b == 10 || b == 16,
            out@ == old(out)@ + join(nats(vs@.subrange(lo as int, i as int)), sep, b as nat),
        decreases hi - i,
    {
        out.push(sep);
        push_digits(out, vs[i], b);
        proof {
            let prev = nats(vs@.subrange(lo as int, i as int));
            assert(nats(vs@.subrange(lo as int, i + 1)) =~= prev.push(vs@[i as int] as nat));
            lemma_join_push(prev, vs@[i as int] as nat, sep, b as nat);
        }
        i = i + 1;
    }
}

} // verus!
