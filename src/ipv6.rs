use vstd::prelude::*;

use crate::addr::{COLON, DOT};
use crate::text::{
    char_digit, digits, find, find_byte, join, lemma_digits, lemma_find_after, lemma_find_none,
    lemma_join_chars, lemma_parse_fields_shape, lemma_parse_join, nats, parse_fields,
    parse_fields_at, push_joined,
};

verus! {

/// The text `::ffff:` that starts an IPv4-mapped address.
pub open spec fn mapped_prefix() -> Seq<u8> {
    seq![COLON, COLON, 102u8, 102u8, 102u8, 102u8, COLON]
}

/// Whether the eight groups `fs` are an IPv4-mapped address, `::ffff:a.b.c.d`.
pub open spec fn is_mapped(fs: Seq<nat>) -> bool {
    fs[0] == 0 && fs[1] == 0 && fs[2] == 0 && fs[3] == 0 && fs[4] == 0 && fs[5] == 65535
}

/// The four octets of the IPv4 address in a mapped address.
pub open spec fn mapped_quad(fs: Seq<nat>) -> Seq<nat> {
    seq![fs[6] / 256, fs[6] % 256, fs[7] / 256, fs[7] % 256]
}

/// The first longest run of zero groups from group `i` on, given the run
/// being read (`cs`, `cl`) and the longest one so far (`bs`, `bl`).
pub open spec fn run_scan(fs: Seq<nat>, i: int, cs: int, cl: int, bs: int, bl: int) -> (int, int)
    decreases 8 - i,
{
    if i >= 8 {
        (bs, bl)
    } else if fs[i] == 0 {
        let cs2 = if cl == 0 {
            i
        } else {
            cs
        };
        if cl + 1 > bl {
            run_scan(fs, i + 1, cs2, cl + 1, cs2, cl + 1)
        } else {
            run_scan(fs, i + 1, cs2, cl + 1, bs, bl)
        }
    } else {
        run_scan(fs, i + 1, 0, 0, bs, bl)
    }
}

/// The start and length of the first longest run of zero groups.
pub open spec fn zero_run(fs: Seq<nat>) -> (int, int) {
    run_scan(fs, 0, 0, 0, 0, 0)
}

/// The text of eight groups: an IPv4-mapped address as `::ffff:a.b.c.d`;
/// otherwise lower-case hexadecimal groups separated by `:`, with the first
/// longest run of two or more zero groups written `::`.
pub open spec fn v6_text(fs: Seq<nat>) -> Seq<u8> {
    if is_mapped(fs) {
        mapped_prefix() + join(mapped_quad(fs), DOT, 10)
    } else {
        let (st, l) = zero_run(fs);
        if l > 1 {
            join(fs.subrange(0, st), COLON, 16) + seq![COLON, COLON] + join(
                fs.subrange(st + l, 8),
                COLON,
                16,
            )
        } else {
            join(fs, COLON, 16)
        }
    }
}

/// How many times `c` occurs in `s`.
pub open spec fn count(s: Seq<u8>, c: u8) -> nat
    decreases s.len(),
{
    if s.len() == 0 {
        0
    } else {
        count(s.drop_last(), c) + if s.last() == c {
            1nat
        } else {
            0nat
        }
    }
}

/// The index of the first `::` in `s`, or its length.
pub open spec fn find_pair(s: Seq<u8>) -> nat
    decreases s.len(),
{
    if s.len() < 2 {
        s.len()
    } else if s[0] == COLON && s[1] == COLON {
        0
    } else {
        1 + find_pair(s.drop_first())
    }
}

/// How many groups a run of `:`-separated groups holds.
pub open spec fn n_pieces(x: Seq<u8>) -> nat {
    if x.len() == 0 {
        0
    } else {
        count(x, COLON) + 1
    }
}

/// `k` groups separated by `:` (none for an empty text).
pub open spec fn groups_of(x: Seq<u8>, k: nat) -> Option<Seq<nat>> {
    if k == 0 {
        Some(Seq::empty())
    } else {
        parse_fields(x, COLON, 16, 65535, k)
    }
}

/// `k` zero groups.
pub open spec fn zeros(k: nat) -> Seq<nat> {
    Seq::new(k, |i: int| 0nat)
}

/// The eight groups written in `t`: eight groups; or groups around one `::`
/// that stands for the zero groups left out; or `::ffff:` and an IPv4
/// address.
pub open spec fn v6_groups(t: Seq<u8>) -> Option<Seq<nat>> {
    if find(t, DOT) < t.len() {
        if t.len() >= 7 && t.subrange(0, 7) == mapped_prefix() {
            match parse_fields(t.subrange(7, t.len() as int), DOT, 10, 255, 4) {
                Some(q) => Some(seq![0nat, 0nat, 0nat, 0nat, 0nat, 65535nat, q[0] * 256 + q[1], q[2] * 256 + q[3]]),
                None => None,
            }
        } else {
            None
        }
    } else {
        let d = find_pair(t) as int;
        if d >= t.len() {
            parse_fields(t, COLON, 16, 65535, 8)
        } else {
            let left = t.subrange(0, d);
            let right = t.subrange(d + 2, t.len() as int);
            let kl = n_pieces(left);
            let kr = n_pieces(right);
            if kl + kr > 7 {
                None
            } else {
                match (groups_of(left, kl), groups_of(right, kr)) {
                    (Some(a), Some(b)) => Some(a + zeros((8 - kl - kr) as nat) + b),
                    _ => None,
                }
            }
        }
    }
}

/// The run that `run_scan` finds is in range and all zero.
pub proof fn lemma_run_scan(fs: Seq<nat>, i: int, cs: int, cl: int, bs: int, bl: int)
    requires
        fs.len() == 8,
        0 <= i <= 8,
        0 <= bs,
        0 <= bl,
        bs + bl <= i,
        forall|j: int| bs <= j < bs + bl ==> fs[j] == 0,
        0 <= cl,
        cl == 0 || (0 <= cs && cs + cl == i),
        forall|j: int| cs <= j < cs + cl ==> fs[j] == 0,
    ensures
        ({
            let (b, l) = run_scan(fs, i, cs, cl, bs, bl);
            0 <= b && 0 <= l && b + l <= 8 && forall|j: int| b <= j < b + l ==> fs[j] == 0
        }),
    decreases 8 - i,
{
    if i < 8 {
        if fs[i] == 0 {
            let cs2 = if cl == 0 {
                i
            } else {
                cs
            };
            lemma_run_scan(fs, i + 1, cs2, cl + 1, cs2, cl + 1);
            lemma_run_scan(fs, i + 1, cs2, cl + 1, bs, bl);
        } else {
            lemma_run_scan(fs, i + 1, 0, 0, bs, bl);
        }
    }
}

/// `count` over two texts adds up.
pub proof fn lemma_count_concat(a: Seq<u8>, b: Seq<u8>, c: u8)
    ensures
        count(a + b, c) == count(a, c) + count(b, c),
    decreases b.len(),
{
    if b.len() == 0 {
        assert(a + b =~= a);
    } else {
        assert((a + b).drop_last() =~= a + b.drop_last());
        lemma_count_concat(a, b.drop_last(), c);
    }
}

/// A text of digits holds no separator.
pub proof fn lemma_count_digits(n: nat, b: nat, c: u8)
    requires
        b == 10 || b == 16,
        char_digit(c, b) is None,
    ensures
        count(digits(n, b), c) == 0,
{
    lemma_digits(n, b);
    lemma_count_none(digits(n, b), c, b);
}

proof fn lemma_count_none(x: Seq<u8>, c: u8, b: nat)
    requires
        forall|i: int| 0 <= i < x.len() ==> (#[trigger] char_digit(x[i], b)) is Some,
        char_digit(c, b) is None,
    ensures
        count(x, c) == 0,
    decreases x.len(),
{
    if x.len() > 0 {
        assert(char_digit(x[x.len() - 1], b) is Some);
        lemma_count_none(x.drop_last(), c, b);
    }
}

/// Whether every `:` in `t` stands inside it and is followed by a digit.
pub open spec fn colons_inside(t: Seq<u8>) -> bool {
    forall|i: int|
        0 <= i < t.len() && #[trigger] t[i] == COLON ==> 0 < i < t.len() - 1 && char_digit(
            t[i + 1],
            16,
        ) is Some
}

/// Joined groups start with a digit and hold one separator fewer than
/// groups.
proof fn lemma_join_count(vs: Seq<nat>)
    requires
        vs.len() >= 1,
    ensures
        count(join(vs, COLON, 16), COLON) == vs.len() - 1,
        join(vs, COLON, 16).len() >= 1,
        char_digit(join(vs, COLON, 16)[0], 16) is Some,
    decreases vs.len(),
{
    let d = digits(vs[0], 16);
    lemma_digits(vs[0], 16);
    lemma_count_digits(vs[0], 16, COLON);
    if vs.len() > 1 {
        let t = join(vs.drop_first(), COLON, 16);
        lemma_join_count(vs.drop_first());
        let s = d + seq![COLON] + t;
        assert(join(vs, COLON, 16) == s);
        lemma_count_concat(d + seq![COLON], t, COLON);
        lemma_count_concat(d, seq![COLON], COLON);
        assert(seq![COLON].drop_last() =~= Seq::<u8>::empty());
        assert(count(Seq::<u8>::empty(), COLON) == 0);
        assert(seq![COLON].last() == COLON);
        assert(count(seq![COLON], COLON) == 1);
        assert(s[0] == d[0]);
    }
}

/// Each separator of joined groups stands between two digits.
proof fn lemma_join_colons(vs: Seq<nat>)
    ensures
        colons_inside(join(vs, COLON, 16)),
    decreases vs.len(),
{
    if vs.len() >= 1 {
        let d = digits(vs[0], 16);
        lemma_digits(vs[0], 16);
        if vs.len() == 1 {
            assert forall|i: int| 0 <= i < d.len() && #[trigger] d[i] == COLON implies 0 < i
                < d.len() - 1 && char_digit(d[i + 1], 16) is Some by {
                assert(char_digit(d[i], 16) is Some);
            }
        } else {
            let t = join(vs.drop_first(), COLON, 16);
            lemma_join_colons(vs.drop_first());
            lemma_join_count(vs.drop_first());
            let s = d + seq![COLON] + t;
            assert(join(vs, COLON, 16) == s);
            assert forall|i: int| 0 <= i < s.len() && #[trigger] s[i] == COLON implies 0 < i
                < s.len() - 1 && char_digit(s[i + 1], 16) is Some by {
                if i < d.len() {
                    assert(s[i] == d[i]);
                    assert(char_digit(d[i], 16) is Some);
                } else if i == d.len() {
                    assert(s[i + 1] == t[0]);
                } else {
                    assert(s[i] == t[i - d.len() - 1]);
                    assert(s[i + 1] == t[i - d.len()]);
                }
            }
        }
    }
}

/// Joined groups hold one separator fewer than groups; each separator
/// stands between two digits.
pub proof fn lemma_join_shape(vs: Seq<nat>)
    requires
        vs.len() >= 1,
    ensures
        count(join(vs, COLON, 16), COLON) == vs.len() - 1,
        join(vs, COLON, 16).len() >= 1,
        char_digit(join(vs, COLON, 16)[0], 16) is Some,
        colons_inside(join(vs, COLON, 16)),
{
    lemma_join_count(vs);
    lemma_join_colons(vs);
}

/// Whether no `::` occurs in `x` and `x` does not end with `:`.
pub open spec fn pair_free(x: Seq<u8>) -> bool {
    &&& forall|i: int| 0 <= i < x.len() - 1 ==> !(#[trigger] x[i] == COLON && x[i + 1] == COLON)
    &&& (x.len() > 0 ==> x.last() != COLON)
}

/// `find_pair` stops at the `::` after a pair-free text.
pub proof fn lemma_find_pair_after(x: Seq<u8>, y: Seq<u8>)
    requires
        pair_free(x),
    ensures
        find_pair(x + seq![COLON, COLON] + y) == x.len(),
    decreases x.len(),
{
    let t = x + seq![COLON, COLON] + y;
    if x.len() == 0 {
        assert(t[0] == COLON && t[1] == COLON);
    } else {
        assert(t[0] == x[0]);
        if x.len() == 1 {
            assert(t[1] == COLON);
            assert(x[0] != COLON);
        } else {
            assert(t[1] == x[1]);
            assert(!(x[0] == COLON && x[1] == COLON));
        }
        assert(t.drop_first() =~= x.drop_first() + seq![COLON, COLON] + y);
        assert(pair_free(x.drop_first())) by {
            assert forall|i: int| 0 <= i < x.drop_first().len() - 1 implies !(
            #[trigger] x.drop_first()[i] == COLON && x.drop_first()[i + 1] == COLON) by {
                assert(x.drop_first()[i] == x[i + 1]);
                assert(x.drop_first()[i + 1] == x[i + 2]);
            }
        }
        lemma_find_pair_after(x.drop_first(), y);
    }
}

/// `find_pair` runs to the end of a pair-free text.
pub proof fn lemma_find_pair_none(x: Seq<u8>)
    requires
        pair_free(x),
    ensures
        find_pair(x) == x.len(),
    decreases x.len(),
{
    if x.len() >= 2 {
        assert(!(x[0] == COLON && x[1] == COLON));
        assert(pair_free(x.drop_first())) by {
            assert forall|i: int| 0 <= i < x.drop_first().len() - 1 implies !(
            #[trigger] x.drop_first()[i] == COLON && x.drop_first()[i + 1] == COLON) by {
                assert(x.drop_first()[i] == x[i + 1]);
                assert(x.drop_first()[i + 1] == x[i + 2]);
            }
        }
        lemma_find_pair_none(x.drop_first());
    }
}

/// Joined groups are pair free.
pub proof fn lemma_join_pair_free(vs: Seq<nat>)
    ensures
        pair_free(join(vs, COLON, 16)),
{
    let t = join(vs, COLON, 16);
    if vs.len() >= 1 {
        lemma_join_shape(vs);
        assert(colons_inside(t));
        assert forall|i: int| 0 <= i < t.len() - 1 implies !(#[trigger] t[i] == COLON && t[i + 1]
            == COLON) by {
            if t[i] == COLON {
                assert(char_digit(t[i + 1], 16) is Some);
            }
        }
        if t.last() == COLON {
            assert(t[t.len() - 1] == COLON);
        }
    }
}

/// Every byte of the text of eight groups is `:`, `.` or a hexadecimal
/// digit, and `.` occurs only in a mapped address.
pub proof fn lemma_v6_text_chars(fs: Seq<nat>)
    requires
        fs.len() == 8,
    ensures
        forall|i: int|
            0 <= i < v6_text(fs).len() ==> #[trigger] v6_text(fs)[i] == COLON || (v6_text(fs)[i]
                == DOT && is_mapped(fs)) || char_digit(v6_text(fs)[i], 16) is Some,
{
    let t = v6_text(fs);
    if is_mapped(fs) {
        let q = join(mapped_quad(fs), DOT, 10);
        lemma_join_chars(mapped_quad(fs), DOT, 10);
        assert forall|i: int| 0 <= i < t.len() implies #[trigger] t[i] == COLON || (t[i] == DOT
            && is_mapped(fs)) || char_digit(t[i], 16) is Some by {
            if i >= 7 {
                assert(t[i] == q[i - 7]);
                assert(q[i - 7] == DOT || char_digit(q[i - 7], 10) is Some);
            }
        }
    } else {
        let (st, l) = zero_run(fs);
        lemma_run_scan(fs, 0, 0, 0, 0, 0);
        if l > 1 {
            let a = join(fs.subrange(0, st), COLON, 16);
            let b = join(fs.subrange(st + l, 8), COLON, 16);
            lemma_join_chars(fs.subrange(0, st), COLON, 16);
            lemma_join_chars(fs.subrange(st + l, 8), COLON, 16);
            assert forall|i: int| 0 <= i < t.len() implies #[trigger] t[i] == COLON || (t[i]
                == DOT && is_mapped(fs)) || char_digit(t[i], 16) is Some by {
                if i < a.len() {
                    assert(t[i] == a[i]);
                } else if i >= a.len() + 2 {
                    assert(t[i] == b[i - a.len() - 2]);
                }
            }
        } else {
            lemma_join_chars(fs, COLON, 16);
        }
    }
}

/// The text of a mapped address reads back as its groups.
#[verifier::rlimit(100)]
proof fn lemma_v6_round_trip_mapped(fs: Seq<nat>)
    requires
        fs.len() == 8,
        forall|i: int| 0 <= i < 8 ==> #[trigger] fs[i] <= 65535,
        is_mapped(fs),
    ensures
        v6_groups(v6_text(fs)) == Some(fs),
{
    let t = v6_text(fs);
    let quad = mapped_quad(fs);
    assert(fs[6] <= 65535);
    assert(fs[7] <= 65535);
    assert(fs[6] / 256 <= 255 && fs[6] % 256 <= 255 && fs[6] == (fs[6] / 256) * 256 + fs[6] % 256)
        by (nonlinear_arith)
        requires
            fs[6] <= 65535,
    ;
    assert(fs[7] / 256 <= 255 && fs[7] % 256 <= 255 && fs[7] == (fs[7] / 256) * 256 + fs[7] % 256)
        by (nonlinear_arith)
        requires
            fs[7] <= 65535,
    ;
    let d0 = digits(quad[0], 10);
    let rest = join(quad.drop_first(), DOT, 10);
    assert(join(quad, DOT, 10) == d0 + seq![DOT] + rest);
    let x = mapped_prefix() + d0;
    lemma_digits(quad[0], 10);
    assert(!x.contains(DOT)) by {
        if x.contains(DOT) {
            let i = choose|i: int| 0 <= i < x.len() && x[i] == DOT;
            if i >= 7 {
                assert(char_digit(d0[i - 7], 10) is Some);
            }
        }
    }
    assert(t =~= x + seq![DOT] + rest);
    lemma_find_after(x, DOT, rest);
    assert(t.subrange(0, 7) =~= mapped_prefix());
    assert(t.subrange(7, t.len() as int) =~= join(quad, DOT, 10));
    assert forall|i: int| 0 <= i < quad.len() implies #[trigger] quad[i] <= 255 by {}
    lemma_parse_join(quad, DOT, 10, 255);
    assert(seq![0nat, 0nat, 0nat, 0nat, 0nat, 65535nat, quad[0] * 256 + quad[1], quad[2] * 256
        + quad[3]] =~= fs);
}

/// Joined groups read back as themselves wherever they stand.
proof fn lemma_groups_of_join(vs: Seq<nat>)
    requires
        forall|i: int| 0 <= i < vs.len() ==> #[trigger] vs[i] <= 65535,
    ensures
        n_pieces(join(vs, COLON, 16)) == vs.len(),
        groups_of(join(vs, COLON, 16), vs.len()) == Some(vs),
{
    if vs.len() >= 1 {
        lemma_join_shape(vs);
        lemma_parse_join(vs, COLON, 16, 65535);
    } else {
        assert(vs =~= Seq::<nat>::empty());
    }
}

/// The text of an address with a run of zero groups reads back as them.
#[verifier::rlimit(40)]
proof fn lemma_v6_round_trip_run(fs: Seq<nat>)
    requires
        fs.len() == 8,
        forall|i: int| 0 <= i < 8 ==> #[trigger] fs[i] <= 65535,
        !is_mapped(fs),
        zero_run(fs).1 > 1,
        !v6_text(fs).contains(DOT),
    ensures
        v6_groups(v6_text(fs)) == Some(fs),
{
    let t = v6_text(fs);
    lemma_find_none(t, DOT);
    let st = zero_run(fs).0;
    let l = zero_run(fs).1;
    lemma_run_scan(fs, 0, 0, 0, 0, 0);
    let lv = fs.subrange(0, st);
    let rv = fs.subrange(st + l, 8);
    let a = join(lv, COLON, 16);
    let b = join(rv, COLON, 16);
    assert(t == a + seq![COLON, COLON] + b);
    lemma_join_pair_free(lv);
    lemma_find_pair_after(a, b);
    assert(t.subrange(0, a.len() as int) =~= a);
    assert(t.subrange(a.len() as int + 2, t.len() as int) =~= b);
    assert forall|i: int| 0 <= i < lv.len() implies #[trigger] lv[i] <= 65535 by {
        assert(lv[i] == fs[i]);
    }
    assert forall|i: int| 0 <= i < rv.len() implies #[trigger] rv[i] <= 65535 by {
        assert(rv[i] == fs[st + l + i]);
    }
    lemma_groups_of_join(lv);
    lemma_groups_of_join(rv);
    assert(lv + zeros(l as nat) + rv =~= fs);
}

/// The text of eight groups reads back as them.
pub proof fn lemma_v6_round_trip(fs: Seq<nat>)
    requires
        fs.len() == 8,
        forall|i: int| 0 <= i < 8 ==> #[trigger] fs[i] <= 65535,
    ensures
        v6_groups(v6_text(fs)) == Some(fs),
{
    let t = v6_text(fs);
    lemma_v6_text_chars(fs);
    if is_mapped(fs) {
        lemma_v6_round_trip_mapped(fs);
    } else {
        assert(!t.contains(DOT)) by {
            if t.contains(DOT) {
                let i = choose|i: int| 0 <= i < t.len() && t[i] == DOT;
                assert(t[i] == COLON || (t[i] == DOT && is_mapped(fs)) || char_digit(t[i], 16)
                    is Some);
            }
        }
        if zero_run(fs).1 > 1 {
            lemma_v6_round_trip_run(fs);
        } else {
            lemma_find_none(t, DOT);
            lemma_join_pair_free(fs);
            lemma_find_pair_none(t);
            lemma_parse_join(fs, COLON, 16, 65535);
        }
    }
}

/// The first longest run of zero groups.
fn zero_run_of(fs: &Vec<u32>) -> (r: (usize, usize))
    requires
        fs@.len() == 8,
    ensures
        r.0 as int == zero_run(nats(fs@)).0,
        r.1 as int == zero_run(nats(fs@)).1,
{
    let ghost f = nats(fs@);
    let mut cs: usize = 0;
    let mut cl: usize = 0;
    let mut bs: usize = 0;
    let mut bl: usize = 0;
    let mut i: usize = 0;
    while i < 8
        invariant
            fs@.len() == 8,
            f == nats(fs@),
            i <= 8,
            cs <= 8,
            cl <= i,
            bs <= 8,
            bl <= 8,
            run_scan(f, i as int, cs as int, cl as int, bs as int, bl as int) == zero_run(f),
        decreases 8 - i,
    {
        assert(f[i as int] == fs@[i as int] as nat);
        if fs[i] == 0 {
            if cl == 0 {
                cs = i;
            }
            cl = cl + 1;
            if cl > bl {
                bs = cs;
                bl = cl;
            }
        } else {
            cs = 0;
            cl = 0;
        }
        i = i + 1;
    }
    (bs, bl)
}

/// Appends the text of the eight groups `fs`.
pub fn push_v6(out: &mut Vec<u8>, fs: &Vec<u32>)
    requires
        fs@.len() == 8,
        forall|i: int| 0 <= i < 8 ==> #[trigger] fs@[i] <= 65535,
    ensures
        final(out)@ == old(out)@ + v6_text(nats(fs@)),
{
    let ghost f = nats(fs@);
    assert(forall|i: int| 0 <= i < 8 ==> #[trigger] f[i] == fs@[i] as nat);
    if fs[0] == 0 && fs[1] == 0 && fs[2] == 0 && fs[3] == 0 && fs[4] == 0 && fs[5] == 65535 {
        out.push(COLON);
        out.push(COLON);
        out.push(102);
        out.push(102);
        out.push(102);
        out.push(102);
        out.push(COLON);
        let ghost head = out@;
        assert(head =~= old(out)@ + mapped_prefix());
        let quad = vec![fs[6] / 256, fs[6] % 256, fs[7] / 256, fs[7] % 256];
        assert(nats(quad@.subrange(0, 4)) =~= mapped_quad(f));
        push_joined(out, &quad, 0, 4, DOT, 10);
        assert(out@ =~= old(out)@ + v6_text(f));
    } else {
        let (st, l) = zero_run_of(fs);
        proof {
            lemma_run_scan(f, 0, 0, 0, 0, 0);
        }
        if l > 1 {
            let ghost start = out@;
            if st > 0 {
                push_joined(out, fs, 0, st, COLON, 16);
            }
            assert(nats(fs@.subrange(0, st as int)) =~= f.subrange(0, st as int));
            assert(out@ =~= start + join(f.subrange(0, st as int), COLON, 16));
            out.push(COLON);
            out.push(COLON);
            let ghost mid = out@;
            if st + l < 8 {
                push_joined(out, fs, st + l, 8, COLON, 16);
            }
            assert(nats(fs@.subrange(st + l, 8)) =~= f.subrange(st + l, 8));
            assert(out@ =~= mid + join(f.subrange(st + l, 8), COLON, 16));
            assert(out@ =~= old(out)@ + v6_text(f));
        } else {
            push_joined(out, fs, 0, 8, COLON, 16);
            assert(fs@.subrange(0, 8) =~= fs@);
        }
    }
}

/// The index of the first `::` in `s[lo..hi]`, or `hi`.
fn find_pair_at(s: &Vec<u8>, lo: usize, hi: usize) -> (r: usize)
    requires
        lo <= hi <= s@.len(),
    ensures
        r == lo + find_pair(s@.subrange(lo as int, hi as int)),
        r < hi ==> r + 2 <= hi,
{
    let mut i: usize = lo;
    while hi - i >= 2
        invariant
            lo <= i <= hi <= s@.len(),
            find_pair(s@.subrange(lo as int, hi as int)) == (i - lo) + find_pair(
                s@.subrange(i as int, hi as int),
            ),
        decreases hi - i,
    {
        let ghost t = s@.subrange(i as int, hi as int);
        assert(t[0] == s@[i as int] && t[1] == s@[i + 1]);
        if s[i] == COLON && s[i + 1] == COLON {
            return i;
        }
        assert(t.drop_first() =~= s@.subrange(i + 1, hi as int));
        i = i + 1;
    }
    hi
}

/// How many groups `s[lo..hi]` holds, where that is under eight; else eight.
fn pieces_at(s: &Vec<u8>, lo: usize, hi: usize) -> (r: usize)
    requires
        lo <= hi <= s@.len(),
    ensures
        r <= 8,
        r < 8 ==> r == n_pieces(s@.subrange(lo as int, hi as int)),
        r == 8 ==> n_pieces(s@.subrange(lo as int, hi as int)) >= 8,
{
    if lo == hi {
        return 0;
    }
    let ghost sub = s@.subrange(lo as int, hi as int);
    let mut cnt: usize = 0;
    let mut i: usize = lo;
    while i < hi
        invariant
            lo <= i <= hi <= s@.len(),
            sub == s@.subrange(lo as int, hi as int),
            cnt < 7,
            cnt == count(s@.subrange(lo as int, i as int), COLON),
        decreases hi - i,
    {
        let ghost p = s@.subrange(lo as int, i + 1);
        assert(p.drop_last() =~= s@.subrange(lo as int, i as int));
        assert(p.last() == s@[i as int]);
        if s[i] == COLON {
            cnt = cnt + 1;
        }
        if cnt == 7 {
            proof {
                lemma_count_concat(p, s@.subrange(i + 1, hi as int), COLON);
                assert(p + s@.subrange(i + 1, hi as int) =~= sub);
            }
            return 8;
        }
        i = i + 1;
    }
    cnt + 1
}

/// Reads the eight groups written in `s[lo..hi]`.
#[verifier::rlimit(60)]
pub fn parse_v6_at(s: &Vec<u8>, lo: usize, hi: usize) -> (r: Option<Vec<u32>>)
    requires
        lo <= hi <= s@.len(),
    ensures
        r is Some <==> v6_groups(s@.subrange(lo as int, hi as int)) is Some,
        r is Some ==> nats(r->Some_0@) == v6_groups(s@.subrange(lo as int, hi as int))->Some_0,
        r is Some ==> r->Some_0@.len() == 8,
        r is Some ==> forall|i: int| 0 <= i < 8 ==> #[trigger] r->Some_0@[i] <= 65535,
{
    let ghost t = s@.subrange(lo as int, hi as int);
    let dot = find_byte(s, DOT, lo, hi);
    if dot < hi {
        if hi - lo < 7 {
            return None;
        }
        let pre = s[lo] == COLON && s[lo + 1] == COLON && s[lo + 2] == 102 && s[lo + 3] == 102
            && s[lo + 4] == 102 && s[lo + 5] == 102 && s[lo + 6] == COLON;
        assert(pre <==> t.subrange(0, 7) == mapped_prefix()) by {
            let m = mapped_prefix();
            if t.subrange(0, 7) == m {
                assert(t.subrange(0, 7)[0] == s@[lo as int]);
                assert(t.subrange(0, 7)[1] == s@[lo + 1]);
                assert(t.subrange(0, 7)[2] == s@[lo + 2]);
                assert(t.subrange(0, 7)[3] == s@[lo + 3]);
                assert(t.subrange(0, 7)[4] == s@[lo + 4]);
                assert(t.subrange(0, 7)[5] == s@[lo + 5]);
                assert(t.subrange(0, 7)[6] == s@[lo + 6]);
            }
            if pre {
                assert(t.subrange(0, 7) =~= m);
            }
        }
        if !pre {
            return None;
        }
        assert(t.subrange(7, t.len() as int) =~= s@.subrange(lo + 7, hi as int));
        let q = match parse_fields_at(s, lo + 7, hi, DOT, 10, 255, 4) {
            Some(q) => q,
            None => {
                return None;
            },
        };
        proof {
            lemma_parse_fields_shape(s@.subrange(lo + 7, hi as int), DOT, 10, 255, 4);
        }
        assert(q@[0] <= 255 && q@[1] <= 255 && q@[2] <= 255 && q@[3] <= 255) by {
            assert(nats(q@)[0] <= 255 && nats(q@)[1] <= 255 && nats(q@)[2] <= 255 && nats(q@)[3]
                <= 255);
        }
        let out = vec![0, 0, 0, 0, 0, 65535, q[0] * 256 + q[1], q[2] * 256 + q[3]];
        assert(nats(out@) =~= v6_groups(t)->Some_0);
        return Some(out);
    }
    let d = find_pair_at(s, lo, hi);
    if d >= hi {
        let fs = match parse_fields_at(s, lo, hi, COLON, 16, 65535, 8) {
            Some(fs) => fs,
            None => {
                return None;
            },
        };
        proof {
            lemma_parse_fields_shape(t, COLON, 16, 65535, 8);
            assert forall|i: int| 0 <= i < 8 implies #[trigger] fs@[i] <= 65535 by {
                assert(nats(fs@)[i] == fs@[i] as nat);
            }
        }
        return Some(fs);
    }
    assert(t.subrange(0, (d - lo) as int) =~= s@.subrange(lo as int, d as int));
    assert(t.subrange((d - lo) + 2, t.len() as int) =~= s@.subrange(d + 2, hi as int));
    let kl = pieces_at(s, lo, d);
    let kr = pieces_at(s, d + 2, hi);
    if kl > 7 || kr > 7 - kl {
        return None;
    }
    let mut left: Vec<u32> = if kl == 0 {
        Vec::new()
    } else {
        match parse_fields_at(s, lo, d, COLON, 16, 65535, kl) {
            Some(v) => v,
            None => {
                return None;
            },
        }
    };
    let mut right: Vec<u32> = if kr == 0 {
        Vec::new()
    } else {
        match parse_fields_at(s, d + 2, hi, COLON, 16, 65535, kr) {
            Some(v) => v,
            None => {
                return None;
            },
        }
    };
    proof {
        if kl > 0 {
            lemma_parse_fields_shape(s@.subrange(lo as int, d as int), COLON, 16, 65535, kl as nat);
        }
        if kr > 0 {
            lemma_parse_fields_shape(s@.subrange(d + 2, hi as int), COLON, 16, 65535, kr as nat);
        }
    }
    let ghost lv = left@;
    let ghost rv = right@;
    assert(nats(lv) =~= groups_of(s@.subrange(lo as int, d as int), kl as nat)->Some_0);
    assert(nats(rv) =~= groups_of(s@.subrange(d + 2, hi as int), kr as nat)->Some_0);
    let nz = 8 - kl - kr;
    let mut k: usize = 0;
    while k < nz
        invariant
            k <= nz,
            left@ == lv + Seq::new(k as nat, |i: int| 0u32),
        decreases nz - k,
    {
        left.push(0);
        assert(left@ =~= lv + Seq::new((k + 1) as nat, |i: int| 0u32));
        k = k + 1;
    }
    left.append(&mut right);
    assert(left@ =~= lv + Seq::new(nz as nat, |i: int| 0u32) + rv);
    assert(nats(left@) =~= nats(lv) + zeros(nz as nat) + nats(rv));
    assert forall|i: int| 0 <= i < 8 implies #[trigger] left@[i] <= 65535 by {
        if i < lv.len() {
            assert(nats(lv)[i] == lv[i] as nat);
        } else if i >= lv.len() + nz {
            assert(nats(rv)[i - lv.len() - nz] == rv[i - lv.len() - nz] as nat);
        }
    }
    Some(left)
}

} // verus!
