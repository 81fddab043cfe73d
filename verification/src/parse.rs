//! The mesh loader: parses a minimal line-oriented model text format. Each
//! non-empty line's first whitespace-separated token selects a record type:
//! `v` introduces a vertex with three decimal coordinate fields, and `f` a
//! face whose fields are one-based vertex indices, each optionally followed
//! by `/`-separated sub-fields of which only the first is used. Lines with
//! other leading tokens are ignored. Coordinates are parsed into fixed-point
//! form: an optional minus sign, at least one integer digit, and an optional
//! dot with fraction digits, of which the first eight contribute.
use vstd::prelude::*;

use crate::FX_ONE;

verus! {

/// An error of the mesh loader: a field that does not parse, or a face
/// index that points past the vertex list.
#[derive(Debug, PartialEq, Eq, Structural)]
pub enum MeshError {
    Parse,
    Index,
}

/// Field separators inside a line: space, tab and carriage return.
pub open spec fn is_space(b: u8) -> bool {
    b == 32 || b == 9 || b == 13
}

/// Decimal digit bytes.
pub open spec fn is_digit(b: u8) -> bool {
    48 <= b <= 57
}

/// The index of the first occurrence of `b` in `s`, or the length of `s`.
pub open spec fn find_byte(s: Seq<u8>, b: u8) -> int
    decreases s.len(),
{
    if s.len() == 0 {
        0
    } else if s[0] == b {
        0
    } else {
        1 + find_byte(s.drop_first(), b)
    }
}

/// `find_byte` lands in range, on an occurrence if there is one, and
/// nothing before it matches.
pub proof fn lemma_find_byte(s: Seq<u8>, b: u8)
    ensures
        0 <= find_byte(s, b) <= s.len(),
        find_byte(s, b) < s.len() ==> s[find_byte(s, b)] == b,
        forall|j: int| 0 <= j < find_byte(s, b) ==> s[j] != b,
    decreases s.len(),
{
    if s.len() != 0 && s[0] != b {
        lemma_find_byte(s.drop_first(), b);
        assert forall|j: int| 0 <= j < find_byte(s, b) implies s[j] != b by {
            if j > 0 {
                assert(s.drop_first()[j - 1] == s[j]);
            }
        }
    }
}

/// A scan that stops at index `i` pins `find_byte` down to `i`.
pub proof fn lemma_find_byte_is(s: Seq<u8>, b: u8, i: int)
    requires
        0 <= i <= s.len(),
        forall|j: int| 0 <= j < i ==> s[j] != b,
        i < s.len() ==> s[i] == b,
    ensures
        find_byte(s, b) == i,
    decreases s.len(),
{
    if s.len() != 0 {
        if i > 0 {
            assert(s[0] != b);
            assert forall|j: int| 0 <= j < i - 1 implies s.drop_first()[j] != b by {
                assert(s.drop_first()[j] == s[j + 1]);
            }
            lemma_find_byte_is(s.drop_first(), b, i - 1);
        }
    }
}

/// The index of the first separator byte in `s`, or the length of `s`.
pub open spec fn find_space(s: Seq<u8>) -> int
    decreases s.len(),
{
    if s.len() == 0 {
        0
    } else if is_space(s[0]) {
        0
    } else {
        1 + find_space(s.drop_first())
    }
}

/// `find_space` lands in range, on a separator if there is one, and
/// nothing before it is a separator.
pub proof fn lemma_find_space(s: Seq<u8>)
    ensures
        0 <= find_space(s) <= s.len(),
        find_space(s) < s.len() ==> is_space(s[find_space(s)]),
        forall|j: int| 0 <= j < find_space(s) ==> !is_space(s[j]),
    decreases s.len(),
{
    if s.len() != 0 && !is_space(s[0]) {
        lemma_find_space(s.drop_first());
        assert forall|j: int| 0 <= j < find_space(s) implies !is_space(s[j]) by {
            if j > 0 {
                assert(s.drop_first()[j - 1] == s[j]);
            }
        }
    }
}

/// A scan that stops at index `i` pins `find_space` down to `i`.
pub proof fn lemma_find_space_is(s: Seq<u8>, i: int)
    requires
        0 <= i <= s.len(),
        forall|j: int| 0 <= j < i ==> !is_space(s[j]),
        i < s.len() ==> is_space(s[i]),
    ensures
        find_space(s) == i,
    decreases s.len(),
{
    if s.len() != 0 {
        if i > 0 {
            assert(!is_space(s[0]));
            assert forall|j: int| 0 <= j < i - 1 implies !is_space(s.drop_first()[j]) by {
                assert(s.drop_first()[j] == s[j + 1]);
            }
            lemma_find_space_is(s.drop_first(), i - 1);
        }
    }
}

/// The lines of the input: the segments between newline bytes, with the
/// text after the last newline as the final segment.
pub open spec fn split_lines(s: Seq<u8>) -> Seq<Seq<u8>>
    decreases s.len(),
    via split_lines_decreases
{
    let i = find_byte(s, 10);
    if i >= s.len() {
        seq![s]
    } else {
        seq![s.take(i)] + split_lines(s.skip(i + 1))
    }
}

#[via_fn]
proof fn split_lines_decreases(s: Seq<u8>) {
    lemma_find_byte(s, 10);
}

/// The whitespace-separated fields of a line, in order.
pub open spec fn fields_of(s: Seq<u8>) -> Seq<Seq<u8>>
    decreases s.len(),
    via fields_of_decreases
{
    if s.len() == 0 {
        seq![]
    } else if is_space(s[0]) {
        fields_of(s.drop_first())
    } else {
        let i = find_space(s);
        seq![s.take(i)] + fields_of(s.skip(i))
    }
}

#[via_fn]
proof fn fields_of_decreases(s: Seq<u8>) {
    lemma_find_space(s);
}

/// `t` consists of decimal digits only.
pub open spec fn all_digits(t: Seq<u8>) -> bool {
    forall|i: int| 0 <= i < t.len() ==> is_digit(#[trigger] t[i])
}

/// The decimal value of a digit run.
pub open spec fn digits_val(t: Seq<u8>) -> int
    decreases t.len(),
{
    if t.len() == 0 {
        0
    } else {
        digits_val(t.take(t.len() - 1)) * 10 + (t[t.len() - 1] - 48)
    }
}

/// Extending a digit run by one digit scales its value by ten.
pub proof fn lemma_digits_val_step(t: Seq<u8>, k: int)
    requires
        0 <= k < t.len(),
    ensures
        digits_val(t.take(k + 1)) == digits_val(t.take(k)) * 10 + (t[k] - 48),
{
    let u = t.take(k + 1);
    assert(u.take(k) =~= t.take(k));
    assert(u[k] == t[k]);
}

/// The value of a digit run is never negative.
pub proof fn lemma_digits_val_nonneg(t: Seq<u8>)
    requires
        all_digits(t),
    ensures
        digits_val(t) >= 0,
    decreases t.len(),
{
    if t.len() > 0 {
        assert(all_digits(t.take(t.len() - 1))) by {
            assert forall|i: int| 0 <= i < t.len() - 1 implies is_digit(
                #[trigger] t.take(t.len() - 1)[i],
            ) by {
                assert(t.take(t.len() - 1)[i] == t[i]);
            }
        }
        lemma_digits_val_nonneg(t.take(t.len() - 1));
    }
}

/// Appending digits never shrinks the value of a digit run.
pub proof fn lemma_digits_val_mono(t: Seq<u8>, k: int)
    requires
        all_digits(t),
        0 <= k <= t.len(),
    ensures
        digits_val(t.take(k)) <= digits_val(t),
    decreases t.len() - k,
{
    if k < t.len() {
        assert(all_digits(t.take(k + 1))) by {
            assert forall|i: int| 0 <= i < k + 1 implies is_digit(#[trigger] t.take(k + 1)[i]) by {
                assert(t.take(k + 1)[i] == t[i]);
            }
        }
        lemma_digits_val_nonneg(t.take(k + 1));
        lemma_digits_val_step(t, k);
        assert(all_digits(t.take(k))) by {
            assert forall|i: int| 0 <= i < k implies is_digit(#[trigger] t.take(k)[i]) by {
                assert(t.take(k)[i] == t[i]);
            }
        }
        lemma_digits_val_nonneg(t.take(k));
        assert(digits_val(t.take(k)) * 10 >= digits_val(t.take(k))) by (nonlinear_arith)
            requires
                digits_val(t.take(k)) >= 0,
        ;
        lemma_digits_val_mono(t, k + 1);
        assert(t.take(t.len() as int) =~= t);
    } else {
        assert(t.take(k) =~= t);
    }
}

/// Ten to the `k`.
pub open spec fn pow10(k: nat) -> int
    decreases k,
{
    if k == 0 {
        1
    } else {
        10 * pow10((k - 1) as nat)
    }
}

/// The magnitude cap on a coordinate's integer part.
pub open spec fn coord_cap() -> int {
    0x10000000000
}

/// A decimal coordinate field parsed into fixed-point form: an optional
/// minus sign, one or more integer digits, and optionally a dot followed by
/// fraction digits, of which the first eight contribute, truncating toward
/// zero. Absent, oversized or malformed parts yield no value.
pub open spec fn parse_fixed(t: Seq<u8>) -> Option<int> {
    let neg = t.len() > 0 && t[0] == 45;
    let body = if neg {
        t.drop_first()
    } else {
        t
    };
    let dot = find_byte(body, 46);
    let ip = body.take(dot);
    let fp = body.skip(
        if dot < body.len() {
            dot + 1
        } else {
            dot
        },
    );
    if ip.len() == 0 || !all_digits(ip) || !all_digits(fp) || digits_val(ip) > coord_cap() {
        None
    } else {
        let kf = if fp.len() < 8 {
            fp.len() as int
        } else {
            8
        };
        let mag = digits_val(ip) * (FX_ONE as int) + (digits_val(fp.take(kf)) * (FX_ONE as int))
            / pow10(kf as nat);
        Some(
            if neg {
                -mag
            } else {
                mag
            },
        )
    }
}

/// A face field parsed into a zero-based vertex index: the decimal digits
/// before the first `/`, read as a one-based index. A missing, zero,
/// oversized or malformed index yields no value.
pub open spec fn parse_index(t: Seq<u8>) -> Option<int> {
    let first = t.take(find_byte(t, 47));
    if first.len() == 0 || !all_digits(first) || digits_val(first) == 0 || digits_val(first)
        > 0xFFFFFFFF {
        None
    } else {
        Some(digits_val(first) - 1)
    }
}

/// What one line of the input contributes.
pub enum LineRec {
    Vertex(int, int, int),
    Face(Seq<int>),
    Skip,
    Bad,
}

/// The indices of a face record, from its fields after the leading `f`.
pub open spec fn parse_face_fields(fs: Seq<Seq<u8>>) -> Option<Seq<int>>
    decreases fs.len(),
{
    if fs.len() == 0 {
        Some(seq![])
    } else {
        match parse_index(fs[0]) {
            Option::None => None,
            Option::Some(v) => match parse_face_fields(fs.drop_first()) {
                Option::None => None,
                Option::Some(rest) => Some(seq![v] + rest),
            },
        }
    }
}

/// `t` is the single byte `b`.
pub open spec fn is_tok(t: Seq<u8>, b: u8) -> bool {
    t.len() == 1 && t[0] == b
}

/// What one line contributes, given its separated fields: a vertex for a
/// leading `v` with three coordinate fields, a face for a leading `f`,
/// nothing for an empty line or an unrecognized leading token, and a
/// failure for a malformed record.
pub open spec fn parse_line_fields(fs: Seq<Seq<u8>>) -> LineRec {
    if fs.len() == 0 {
        LineRec::Skip
    } else if is_tok(fs[0], 118) {
        if fs.len() < 4 {
            LineRec::Bad
        } else {
            match (parse_fixed(fs[1]), parse_fixed(fs[2]), parse_fixed(fs[3])) {
                (Option::Some(x), Option::Some(y), Option::Some(z)) => LineRec::Vertex(x, y, z),
                _ => LineRec::Bad,
            }
        }
    } else if is_tok(fs[0], 102) {
        match parse_face_fields(fs.skip(1)) {
            Option::None => LineRec::Bad,
            Option::Some(s) => LineRec::Face(s),
        }
    } else {
        LineRec::Skip
    }
}

/// What one line contributes.
pub open spec fn parse_line(l: Seq<u8>) -> LineRec {
    parse_line_fields(fields_of(l))
}

/// The vertices and faces contributed by a list of lines, in order; no
/// value if any line is malformed.
pub open spec fn parse_lines(ls: Seq<Seq<u8>>) -> Option<(Seq<(int, int, int)>, Seq<Seq<int>>)>
    decreases ls.len(),
{
    if ls.len() == 0 {
        Some((seq![], seq![]))
    } else {
        match parse_line(ls[0]) {
            LineRec::Bad => None,
            LineRec::Vertex(x, y, z) => match parse_lines(ls.drop_first()) {
                Option::None => None,
                Option::Some(rest) => Some((seq![(x, y, z)] + rest.0, rest.1)),
            },
            LineRec::Face(f) => match parse_lines(ls.drop_first()) {
                Option::None => None,
                Option::Some(rest) => Some((rest.0, seq![f] + rest.1)),
            },
            LineRec::Skip => parse_lines(ls.drop_first()),
        }
    }
}

/// The whole input parsed: its lines' vertices and faces, in order, or no
/// value if any line is malformed.
pub open spec fn parse_obj_spec(s: Seq<u8>) -> Option<(Seq<(int, int, int)>, Seq<Seq<int>>)> {
    parse_lines(split_lines(s))
}

/// The value of a digit run stays under ten to the number of digits.
pub proof fn lemma_digits_val_bound(t: Seq<u8>)
    requires
        all_digits(t),
    ensures
        0 <= digits_val(t) < pow10(t.len() as nat),
    decreases t.len(),
{
    if t.len() > 0 {
        let u = t.take(t.len() - 1);
        assert(all_digits(u)) by {
            assert forall|i: int| 0 <= i < u.len() implies is_digit(#[trigger] u[i]) by {
                assert(u[i] == t[i]);
            }
        }
        lemma_digits_val_bound(u);
        assert(digits_val(u) * 10 + 9 < pow10(u.len() as nat) * 10) by (nonlinear_arith)
            requires
                digits_val(u) < pow10(u.len() as nat),
        ;
    }
}

/// The views of a list of byte vectors.
pub open spec fn views_of(fs: Seq<Vec<u8>>) -> Seq<Seq<u8>> {
    fs.map(|i: int, v: Vec<u8>| v@)
}

/// The mathematical values of a vertex list.
pub open spec fn verts_view(vs: Seq<[i64; 3]>) -> Seq<(int, int, int)> {
    vs.map(|i: int, v: [i64; 3]| (v@[0] as int, v@[1] as int, v@[2] as int))
}

/// The mathematical values of a face list.
pub open spec fn faces_view(fs: Seq<Vec<usize>>) -> Seq<Seq<int>> {
    fs.map(|i: int, f: Vec<usize>| f@.map(|j: int, u: usize| u as int))
}

/// Scans `tok[start..end]`: whether it is all digits, whether its value
/// passed the cap, and the value itself when it did not.
fn scan_digits(tok: &[u8], start: usize, end: usize, cap: u64) -> (r: (bool, bool, u64))
    requires
        start <= end <= tok.len(),
        cap <= 0x10000000000u64,
    ensures
        r.0 == all_digits(tok@.subrange(start as int, end as int)),
        r.0 && !r.1 ==> r.2 as int == digits_val(tok@.subrange(start as int, end as int)),
        r.0 && r.1 ==> digits_val(tok@.subrange(start as int, end as int)) > cap,
{
    let ghost sub = tok@.subrange(start as int, end as int);
    let mut ok = true;
    let mut big = false;
    let mut v: u64 = 0;
    let mut i = start;
    while i < end
        invariant
            start <= i <= end,
            end <= tok@.len(),
            cap <= 0x10000000000u64,
            sub == tok@.subrange(start as int, end as int),
            ok == all_digits(sub.take(i - start)),
            ok && !big ==> v as int == digits_val(sub.take(i - start)) && v <= 10 * cap + 9,
            ok && !big ==> digits_val(sub.take(i - start)) <= 10 * cap + 9,
            ok && big ==> digits_val(sub.take(i - start)) > cap,
        decreases end - i,
    {
        let ghost k = i - start;
        let ghost pre = sub.take(k);
        let c = tok[i];
        proof {
            assert(sub[k] == c);
            assert(sub.take(k + 1).take(k) =~= pre);
            lemma_digits_val_step(sub, k);
        }
        if c < 48 || c > 57 {
            proof {
                assert(!is_digit(sub.take(k + 1)[k]));
                assert forall|j: int| i - start < j <= end - start implies !all_digits(
                    #[trigger] sub.take(j),
                ) by {
                    assert(sub.take(j)[k] == sub[k]);
                }
            }
            ok = false;
        } else if ok {
            proof {
                assert forall|j: int| 0 <= j < k + 1 implies is_digit(
                    #[trigger] sub.take(k + 1)[j],
                ) by {
                    if j < k {
                        assert(sub.take(k + 1)[j] == pre[j]);
                    }
                }
            }
            if !big {
                if v > cap {
                    big = true;
                    proof {
                        lemma_digits_val_mono(sub.take(k + 1), k);
                        assert(sub.take(k + 1).take(k) =~= pre);
                    }
                } else {
                    v = v * 10 + ((c - 48) as u64);
                }
            } else {
                proof {
                    lemma_digits_val_mono(sub.take(k + 1), k);
                    assert(sub.take(k + 1).take(k) =~= pre);
                }
            }
        }
        i = i + 1;
    }
    proof {
        assert(sub.take(end - start) =~= sub);
    }
    (ok, big, v)
}

/// Ten to the `b` is at least ten to the `a` when `a <= b`.
proof fn lemma_pow10_mono(a: nat, b: nat)
    requires
        a <= b,
    ensures
        0 < pow10(a) <= pow10(b),
    decreases b,
{
    if a < b {
        lemma_pow10_mono(a, (b - 1) as nat);
    } else if b > 0 {
        lemma_pow10_mono((a - 1) as nat, (b - 1) as nat);
    }
}

/// One coordinate field parsed into fixed-point form; exact against
/// [`parse_fixed`].
#[verifier::rlimit(50)]
fn parse_fixed_tok(tok: &Vec<u8>) -> (r: Option<i64>)
    ensures
        match r {
            Option::Some(v) => parse_fixed(tok@) == Option::Some(v as int),
            Option::None => parse_fixed(tok@) is None,
        },
{
    let n = tok.len();
    let neg = n > 0 && tok[0] == 45;
    let s: usize = if neg {
        1
    } else {
        0
    };
    let ghost body = if neg {
        tok@.drop_first()
    } else {
        tok@
    };
    proof {
        assert(body =~= tok@.subrange(s as int, n as int));
    }
    let mut dot: usize = s;
    while dot < n && tok[dot] != 46
        invariant
            s <= dot <= n,
            n == tok@.len(),
            forall|j: int| s <= j < dot ==> tok@[j] != 46,
        decreases n - dot,
    {
        dot = dot + 1;
    }
    proof {
        assert forall|j: int| 0 <= j < dot - s implies body[j] != 46 by {
            assert(body[j] == tok@[j + s]);
        }
        if dot < n {
            assert(body[dot - s] == tok@[dot as int]);
        }
        lemma_find_byte_is(body, 46, dot - s);
        assert(body.take(dot - s) =~= tok@.subrange(s as int, dot as int));
    }
    let (ok_ip, big_ip, v_ip) = scan_digits(tok.as_slice(), s, dot, 0x10000000000u64);
    let fstart = if dot < n {
        dot + 1
    } else {
        dot
    };
    let ghost fp = tok@.subrange(fstart as int, n as int);
    proof {
        assert(body.skip(
            if (dot - s) < body.len() {
                dot - s + 1
            } else {
                dot - s
            },
        ) =~= fp);
    }
    let (ok_fp, _, _) = scan_digits(tok.as_slice(), fstart, n, 0x10000000000u64);
    if !ok_ip || dot == s || !ok_fp || big_ip || v_ip > 0x10000000000u64 {
        return None;
    }
    let klen = n - fstart;
    let kf = if klen < 8 {
        klen
    } else {
        8
    };
    proof {
        assert(fp.take(kf as int) =~= tok@.subrange(fstart as int, (fstart + kf) as int));
        assert(all_digits(fp.take(kf as int))) by {
            assert forall|j: int| 0 <= j < kf implies is_digit(#[trigger] fp.take(kf as int)[j]) by {
                assert(fp.take(kf as int)[j] == fp[j]);
            }
        }
        lemma_digits_val_bound(fp.take(kf as int));
        lemma_pow10_mono(kf as nat, 8);
        assert(pow10(8) == 100000000) by {
            reveal_with_fuel(pow10, 9);
        }
    }
    let (ok8, big8, f) = scan_digits(tok.as_slice(), fstart, fstart + kf, 0x10000000000u64);
    proof {
        assert(ok8) by {
            assert forall|j: int|
                0 <= j < tok@.subrange(fstart as int, (fstart + kf) as int).len() implies is_digit(
                #[trigger] tok@.subrange(fstart as int, (fstart + kf) as int)[j],
            ) by {
                assert(tok@.subrange(fstart as int, (fstart + kf) as int)[j] == fp[j]);
            }
        }
        if big8 {
            assert(false);
        }
    }
    let mut p: u64 = 1;
    let mut t: usize = 0;
    while t < kf
        invariant
            t <= kf <= 8,
            p as int == pow10(t as nat),
        decreases kf - t,
    {
        proof {
            lemma_pow10_mono(t as nat, 7);
            assert(pow10(7) == 10000000) by {
                reveal_with_fuel(pow10, 8);
            }
            assert(pow10((t + 1) as nat) == 10 * pow10(t as nat));
        }
        p = p * 10;
        t = t + 1;
    }
    proof {
        vstd::arithmetic::div_mod::lemma_div_nonincreasing(f as int * (FX_ONE as int), p as int);
        vstd::arithmetic::div_mod::lemma_div_pos_is_pos(f as int * (FX_ONE as int), p as int);
        crate::fixed::lemma_mul_le(f as int, 0x10000000000, FX_ONE as int, FX_ONE as int);
        lemma_digits_val_nonneg(fp.take(kf as int));
    }
    let frac = (f * (FX_ONE as u64)) / p;
    let mag = v_ip * (FX_ONE as u64) + frac;
    let magi = mag as i64;
    if neg {
        Some(-magi)
    } else {
        Some(magi)
    }
}

/// One face field parsed into a zero-based index; exact against
/// [`parse_index`].
fn parse_index_tok(tok: &Vec<u8>) -> (r: Option<usize>)
    ensures
        match r {
            Option::Some(u) => parse_index(tok@) == Option::Some(u as int),
            Option::None => parse_index(tok@) is None,
        },
{
    let n = tok.len();
    let mut sl: usize = 0;
    while sl < n && tok[sl] != 47
        invariant
            sl <= n,
            n == tok@.len(),
            forall|j: int| 0 <= j < sl ==> tok@[j] != 47,
        decreases n - sl,
    {
        sl = sl + 1;
    }
    proof {
        lemma_find_byte_is(tok@, 47, sl as int);
        assert(tok@.take(sl as int) =~= tok@.subrange(0, sl as int));
    }
    let (ok, big, v) = scan_digits(tok.as_slice(), 0, sl, 0xFFFFFFFFu64);
    if !ok || sl == 0 || big || v > 0xFFFFFFFFu64 || v == 0 {
        None
    } else {
        Some((v - 1) as usize)
    }
}

/// What one line contributes, in executable form.
enum LineOut {
    Vertex([i64; 3]),
    Face(Vec<usize>),
    Skip,
    Bad,
}

/// The record of a line given its separated fields; exact against
/// [`parse_line_fields`].
fn line_record(flds: &Vec<Vec<u8>>) -> (r: LineOut)
    ensures
        ({
            let sl = parse_line_fields(views_of(flds@));
            match r {
                LineOut::Vertex(v) => sl matches LineRec::Vertex(x, y, z) && v@[0] as int == x
                    && v@[1] as int == y && v@[2] as int == z,
                LineOut::Face(f) => sl matches LineRec::Face(sq) && f@.map(
                    |j: int, u: usize| u as int,
                ) == sq,
                LineOut::Skip => sl is Skip,
                LineOut::Bad => sl is Bad,
            }
        }),
{
    let ghost fs = views_of(flds@);
    if flds.len() == 0 {
        return LineOut::Skip;
    }
    let head = &flds[0];
    proof {
        assert(fs[0] == flds@[0]@);
    }
    if head.len() == 1 && head[0] == 118 {
        if flds.len() < 4 {
            return LineOut::Bad;
        }
        proof {
            assert(fs[1] == flds@[1]@);
            assert(fs[2] == flds@[2]@);
            assert(fs[3] == flds@[3]@);
        }
        let x = parse_fixed_tok(&flds[1]);
        let y = parse_fixed_tok(&flds[2]);
        let z = parse_fixed_tok(&flds[3]);
        match (x, y, z) {
            (Option::Some(a), Option::Some(b), Option::Some(c)) => LineOut::Vertex([a, b, c]),
            _ => LineOut::Bad,
        }
    } else if head.len() == 1 && head[0] == 102 {
        let mut out: Vec<usize> = Vec::new();
        let m = flds.len();
        let mut i: usize = 1;
        while i < m
            invariant
                1 <= i <= m,
                m == flds@.len(),
                fs == views_of(flds@),
                fs.len() == m,
                is_tok(fs[0], 102),
                parse_face_fields(fs.skip(1)) == (match parse_face_fields(fs.skip(i as int)) {
                    Option::None => Option::<Seq<int>>::None,
                    Option::Some(rest) => Option::Some(
                        out@.map(|j: int, u: usize| u as int) + rest,
                    ),
                }),
            decreases m - i,
        {
            let ghost tail = fs.skip(i as int);
            proof {
                assert(tail[0] == fs[i as int]);
                assert(fs[i as int] == flds@[i as int]@);
                assert(tail.drop_first() =~= fs.skip(i + 1));
            }
            match parse_index_tok(&flds[i]) {
                Option::Some(u) => {
                    let ghost out0 = out@;
                    out.push(u);
                    proof {
                        let ov0 = out0.map(|j: int, u2: usize| u2 as int);
                        let ov1 = out@.map(|j: int, u2: usize| u2 as int);
                        if parse_face_fields(fs.skip(i + 1)) is Some {
                            let rest = parse_face_fields(fs.skip(i + 1))->Some_0;
                            assert(ov0 + (seq![u as int] + rest) =~= ov1 + rest);
                        }
                    }
                },
                Option::None => {
                    proof {
                        assert(parse_face_fields(fs.skip(i as int)) is None);
                        assert(parse_face_fields(fs.skip(1)) is None);
                    }
                    return LineOut::Bad;
                },
            }
            i = i + 1;
        }
        proof {
            assert(fs.skip(m as int) =~= Seq::<Seq<u8>>::empty());
            let ov = out@.map(|j: int, u2: usize| u2 as int);
            assert(ov + Seq::<int>::empty() =~= ov);
        }
        LineOut::Face(out)
    } else {
        LineOut::Skip
    }
}

/// The whitespace-separated fields of `text[start..end]`, each copied into
/// its own byte vector; exact against [`fields_of`].
fn split_fields(text: &[u8], start: usize, end: usize) -> (r: Vec<Vec<u8>>)
    requires
        start <= end <= text.len(),
    ensures
        views_of(r@) == fields_of(text@.subrange(start as int, end as int)),
{
    let ghost line = text@.subrange(start as int, end as int);
    let mut out: Vec<Vec<u8>> = Vec::new();
    let mut p = start;
    while p < end
        invariant
            start <= p <= end,
            end <= text@.len(),
            line == text@.subrange(start as int, end as int),
            fields_of(line) == views_of(out@) + fields_of(
                text@.subrange(p as int, end as int),
            ),
        decreases end - p,
    {
        let c = text[p];
        let ghost sub = text@.subrange(p as int, end as int);
        if c == 32 || c == 9 || c == 13 {
            proof {
                assert(is_space(sub[0]));
                assert(sub.drop_first() =~= text@.subrange(p + 1, end as int));
            }
            p = p + 1;
        } else {
            let mut q = p + 1;
            while q < end && !(text[q] == 32 || text[q] == 9 || text[q] == 13)
                invariant
                    p < q <= end,
                    end <= text@.len(),
                    forall|j: int| p < j < q ==> !is_space(text@[j]),
                decreases end - q,
            {
                q = q + 1;
            }
            let mut tok: Vec<u8> = Vec::new();
            let mut u = p;
            while u < q
                invariant
                    p <= u <= q,
                    q <= end,
                    end <= text@.len(),
                    tok@ == text@.subrange(p as int, u as int),
                decreases q - u,
            {
                proof {
                    assert(text@.subrange(p as int, u + 1) =~= text@.subrange(
                        p as int,
                        u as int,
                    ).push(text@[u as int]));
                }
                tok.push(text[u]);
                u = u + 1;
            }
            let ghost out0 = out@;
            out.push(tok);
            proof {
                assert(!is_space(sub[0]));
                assert forall|j: int| 0 <= j < q - p implies !is_space(sub[j]) by {
                    assert(sub[j] == text@[p + j]);
                }
                if q < end {
                    assert(is_space(sub[q - p])) by {
                        assert(sub[q - p] == text@[q as int]);
                    }
                }
                lemma_find_space_is(sub, q - p);
                assert(sub.take(q - p) =~= text@.subrange(p as int, q as int));
                assert(sub.skip(q - p) =~= text@.subrange(q as int, end as int));
                assert(views_of(out@) =~= views_of(out0) + seq![tok@]);
                assert((views_of(out0) + seq![tok@]) + fields_of(
                    text@.subrange(q as int, end as int),
                ) =~= views_of(out0) + (seq![tok@] + fields_of(
                    text@.subrange(q as int, end as int),
                )));
            }
            p = q;
        }
    }
    proof {
        assert(text@.subrange(p as int, end as int).len() == 0);
        assert(views_of(out@) + fields_of(text@.subrange(p as int, end as int)) =~= views_of(
            out@,
        ));
    }
    out
}

/// Parses model-file text into a vertex list and a face list: vertices in
/// fixed-point coordinates in file order, faces as zero-based index lists.
/// Fails with the parse error exactly when some `v` or `f` record is
/// malformed, as [`parse_obj_spec`] lays out.
pub fn parse_obj(text: &[u8]) -> (r: Result<(Vec<[i64; 3]>, Vec<Vec<usize>>), MeshError>)
    requires
        text.len() < usize::MAX,
    ensures
        match r {
            Result::Ok(m) => parse_obj_spec(text@) == Option::Some(
                (verts_view(m.0@), faces_view(m.1@)),
            ),
            Result::Err(e) => e == MeshError::Parse && parse_obj_spec(text@) is None,
        },
{
    let n = text.len();
    let mut vs: Vec<[i64; 3]> = Vec::new();
    let mut fcs: Vec<Vec<usize>> = Vec::new();
    let mut pos: usize = 0;
    proof {
        assert(text@.skip(0) =~= text@);
        if parse_lines(split_lines(text@)) is Some {
            let rest = parse_lines(split_lines(text@))->Some_0;
            assert(verts_view(vs@) + rest.0 =~= rest.0);
            assert(faces_view(fcs@) + rest.1 =~= rest.1);
        }
    }
    while pos <= n
        invariant
            pos <= n + 1,
            n == text@.len(),
            n < usize::MAX,
            pos <= n ==> parse_obj_spec(text@) == (match parse_lines(
                split_lines(text@.skip(pos as int)),
            ) {
                Option::None => Option::<(Seq<(int, int, int)>, Seq<Seq<int>>)>::None,
                Option::Some(rest) => Option::Some(
                    (verts_view(vs@) + rest.0, faces_view(fcs@) + rest.1),
                ),
            }),
            pos == n + 1 ==> parse_obj_spec(text@) == Option::Some(
                (verts_view(vs@), faces_view(fcs@)),
            ),
        decreases n + 1 - pos,
    {
        let mut end = pos;
        while end < n && text[end] != 10
            invariant
                pos <= end <= n,
                n == text@.len(),
                forall|j: int| pos <= j < end ==> text@[j] != 10,
            decreases n - end,
        {
            end = end + 1;
        }
        let ghost suffix = text@.skip(pos as int);
        let ghost line = text@.subrange(pos as int, end as int);
        proof {
            assert forall|j: int| 0 <= j < end - pos implies suffix[j] != 10 by {
                assert(suffix[j] == text@[pos + j]);
            }
            if end < n {
                assert(suffix[end - pos] == text@[end as int]);
            }
            lemma_find_byte_is(suffix, 10, end - pos);
            assert(suffix.take(end - pos) =~= line);
            if end < n {
                assert(suffix.skip(end - pos + 1) =~= text@.skip(end + 1));
            } else {
                assert(suffix =~= line);
            }
        }
        let flds = split_fields(text, pos, end);
        let rec = line_record(&flds);
        let ghost ls = split_lines(suffix);
        let ghost rest_lines = if end < n {
            split_lines(text@.skip(end + 1))
        } else {
            Seq::<Seq<u8>>::empty()
        };
        proof {
            if end < n {
                assert(ls == seq![line] + rest_lines);
                assert((seq![line] + rest_lines).drop_first() =~= rest_lines);
                assert(ls[0] == line);
            } else {
                assert(ls == seq![suffix]);
                assert(ls[0] == line);
                assert(ls.drop_first() =~= rest_lines);
                assert(rest_lines.len() == 0);
            }
            assert(parse_line(line) == parse_line_fields(views_of(flds@)));
        }
        match rec {
            LineOut::Bad => {
                proof {
                    assert(parse_lines(ls) is None);
                }
                return Err(MeshError::Parse);
            },
            LineOut::Vertex(v) => {
                let ghost vs0 = vs@;
                vs.push(v);
                proof {
                    let t = (v@[0] as int, v@[1] as int, v@[2] as int);
                    assert(verts_view(vs@) =~= verts_view(vs0) + seq![t]);
                    if parse_lines(rest_lines) is Some {
                        let rest = parse_lines(rest_lines)->Some_0;
                        assert(verts_view(vs0) + (seq![t] + rest.0) =~= verts_view(vs@) + rest.0);
                    }
                }
            },
            LineOut::Face(fc) => {
                let ghost fcs0 = fcs@;
                let ghost fcv = fc@.map(|j: int, u2: usize| u2 as int);
                fcs.push(fc);
                proof {
                    assert(faces_view(fcs@) =~= faces_view(fcs0) + seq![fcv]);
                    if parse_lines(rest_lines) is Some {
                        let rest = parse_lines(rest_lines)->Some_0;
                        assert(faces_view(fcs0) + (seq![fcv] + rest.1) =~= faces_view(fcs@)
                            + rest.1);
                    }
                }
            },
            LineOut::Skip => {},
        }
        proof {
            if end == n {
                assert(verts_view(vs@) + Seq::<(int, int, int)>::empty() =~= verts_view(vs@));
                assert(faces_view(fcs@) + Seq::<Seq<int>>::empty() =~= faces_view(fcs@));
            }
        }
        pos = end + 1;
    }
    Ok((vs, fcs))
}

/// Checks that every face index points at an existing vertex: succeeds
/// exactly when all indices are in range, and reports the index error
/// otherwise.
pub fn check_faces(nverts: usize, faces: &Vec<Vec<usize>>) -> (r: Result<(), MeshError>)
    ensures
        r is Ok <==> (forall|f: int, k: int|
            0 <= f < faces@.len() && 0 <= k < faces@[f]@.len() ==> faces@[f]@[k] < nverts),
        r is Err ==> r == Result::<(), MeshError>::Err(MeshError::Index),
{
    let nf = faces.len();
    let mut f: usize = 0;
    while f < nf
        invariant
            f <= nf,
            nf == faces@.len(),
            forall|g: int, k: int|
                0 <= g < f && 0 <= k < faces@[g]@.len() ==> faces@[g]@[k] < nverts,
        decreases nf - f,
    {
        let face: &Vec<usize> = &faces[f];
        let fl = face.len();
        let mut k: usize = 0;
        while k < fl
            invariant
                k <= fl,
                fl == face@.len(),
                face@ == faces@[f as int]@,
                f < faces@.len(),
                forall|u: int| 0 <= u < k ==> face@[u] < nverts,
            decreases fl - k,
        {
            if face[k] >= nverts {
                return Err(MeshError::Index);
            }
            k = k + 1;
        }
        f = f + 1;
    }
    Ok(())
}

} // verus!
