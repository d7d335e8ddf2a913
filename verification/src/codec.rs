//! The snapshot file format: a table-based, human-editable serialization of
//! a body list, one `[[bodies]]` table per body with `name`, `gm`, `radius`,
//! `position` and `velocity` fields.  Fixed-point scalars appear as decimal
//! numbers with exactly six fraction digits, so every value round-trips
//! without loss.
//!
//! `ser_bodies` is the format's definition; `parse_bodies_spec` is its
//! semantics.  `lemma_snapshot_roundtrip` proves that parsing a
//! serialization yields the original bodies, field for field.
//!
//! The parser accepts exactly the canonical form the serializer emits:
//! fixed field order, fixed spacing, six fraction digits.  Snapshots are
//! this system's own output, so a reordered or reformatted file is
//! rejected rather than guessed at.

use vstd::prelude::*;
use crate::body::{name_ok, Body, BodyView};
use crate::calendar::{digit_ok, is_digit};
use crate::num64::abs_int;
use crate::vec3::V3i;

verus! {

/// Decimal digits of `n`, most significant first, no leading zeros
/// (a single `0` for zero).
pub open spec fn dec_digits(n: nat) -> Seq<u8>
    decreases n,
{
    if n < 10 {
        seq![(0x30 + n) as u8]
    } else {
        dec_digits(n / 10).push((0x30 + n % 10) as u8)
    }
}

/// Exactly six decimal digits of a fraction count `n < 10^6`.
pub open spec fn dec6(n: nat) -> Seq<u8> {
    seq![
        (0x30 + n / 100000 % 10) as u8,
        (0x30 + n / 10000 % 10) as u8,
        (0x30 + n / 1000 % 10) as u8,
        (0x30 + n / 100 % 10) as u8,
        (0x30 + n / 10 % 10) as u8,
        (0x30 + n % 10) as u8,
    ]
}

/// A fixed-point scalar as a signed decimal with six fraction digits.
pub open spec fn ser_num(v: int) -> Seq<u8> {
    let a = abs_int(v) as nat;
    let sign: Seq<u8> = if v < 0 {
        seq![0x2du8]
    } else {
        Seq::empty()
    };
    sign + dec_digits(a / 1000000) + seq![0x2eu8] + dec6(a % 1000000)
}

/// A 3-vector as `[x, y, z]`.
pub open spec fn ser_triple(v: V3i) -> Seq<u8> {
    seq![0x5bu8] + ser_num(v.x) + seq![0x2cu8, 0x20u8] + ser_num(v.y) + seq![0x2cu8, 0x20u8]
        + ser_num(v.z) + seq![0x5du8]
}

/// `[[bodies]]\n`
pub open spec fn lit_header() -> Seq<u8> {
    seq![0x5bu8, 0x5bu8, 0x62u8, 0x6fu8, 0x64u8, 0x69u8, 0x65u8, 0x73u8, 0x5du8, 0x5du8, 0x0au8]
}

/// `name = "`
pub open spec fn lit_name() -> Seq<u8> {
    seq![0x6eu8, 0x61u8, 0x6du8, 0x65u8, 0x20u8, 0x3du8, 0x20u8, 0x22u8]
}

/// `"\n`
pub open spec fn lit_name_end() -> Seq<u8> {
    seq![0x22u8, 0x0au8]
}

/// `gm = `
pub open spec fn lit_gm() -> Seq<u8> {
    seq![0x67u8, 0x6du8, 0x20u8, 0x3du8, 0x20u8]
}

/// `radius = `
pub open spec fn lit_radius() -> Seq<u8> {
    seq![0x72u8, 0x61u8, 0x64u8, 0x69u8, 0x75u8, 0x73u8, 0x20u8, 0x3du8, 0x20u8]
}

/// `position = `
pub open spec fn lit_position() -> Seq<u8> {
    seq![0x70u8, 0x6fu8, 0x73u8, 0x69u8, 0x74u8, 0x69u8, 0x6fu8, 0x6eu8, 0x20u8, 0x3du8, 0x20u8]
}

/// `velocity = `
pub open spec fn lit_velocity() -> Seq<u8> {
    seq![0x76u8, 0x65u8, 0x6cu8, 0x6fu8, 0x63u8, 0x69u8, 0x74u8, 0x79u8, 0x20u8, 0x3du8, 0x20u8]
}

/// One body's table.
pub open spec fn ser_body(b: BodyView) -> Seq<u8> {
    lit_header() + lit_name() + b.name + lit_name_end() + lit_gm() + ser_num(b.gm) + seq![0x0au8]
        + lit_radius() + ser_num(b.radius) + seq![0x0au8] + lit_position() + ser_triple(b.pos)
        + seq![0x0au8] + lit_velocity() + ser_triple(b.vel) + seq![0x0au8]
}

/// The whole body list, one table after another.
pub open spec fn ser_bodies(bs: Seq<BodyView>) -> Seq<u8>
    decreases bs.len(),
{
    if bs.len() == 0 {
        Seq::empty()
    } else {
        ser_body(bs[0]) + ser_bodies(bs.drop_first())
    }
}

/// Push the decimal digits of `n`.
fn push_decimal(out: &mut Vec<u8>, n: u64)
    ensures
        final(out)@ == old(out)@ + dec_digits(n as nat),
    decreases n,
{
    if n < 10 {
        out.push(0x30 + n as u8);
        proof {
            assert(final(out)@ =~= old(out)@ + dec_digits(n as nat));
        }
    } else {
        push_decimal(out, n / 10);
        out.push(0x30 + (n % 10) as u8);
        proof {
            assert(final(out)@ =~= old(out)@ + dec_digits(n as nat));
        }
    }
}

/// Push a fixed-point scalar as `ser_num` spells it.
fn push_num(out: &mut Vec<u8>, v: i64)
    ensures
        final(out)@ == old(out)@ + ser_num(v as int),
{
    let a: u64 = if v < 0 {
        out.push(0x2d);
        if v == i64::MIN {
            9_223_372_036_854_775_808u64
        } else {
            (-v) as u64
        }
    } else {
        v as u64
    };
    proof {
        assert(a as int == abs_int(v as int));
    }
    push_decimal(out, a / 1_000_000);
    out.push(0x2e);
    let f: u64 = a % 1_000_000;
    out.push(0x30 + (f / 100_000 % 10) as u8);
    out.push(0x30 + (f / 10_000 % 10) as u8);
    out.push(0x30 + (f / 1_000 % 10) as u8);
    out.push(0x30 + (f / 100 % 10) as u8);
    out.push(0x30 + (f / 10 % 10) as u8);
    out.push(0x30 + (f % 10) as u8);
    proof {
        assert(final(out)@ =~= old(out)@ + ser_num(v as int));
    }
}

/// Push a 3-vector as `ser_triple` spells it.
fn push_triple(out: &mut Vec<u8>, v: &crate::vec3::Vec3)
    ensures
        final(out)@ == old(out)@ + ser_triple(v@),
{
    out.push(0x5b);
    push_num(out, v.x);
    out.push(0x2c);
    out.push(0x20);
    push_num(out, v.y);
    out.push(0x2c);
    out.push(0x20);
    push_num(out, v.z);
    out.push(0x5d);
    proof {
        assert(final(out)@ =~= old(out)@ + ser_triple(v@));
    }
}

/// Push a byte sequence given as a slice.
pub fn push_all(out: &mut Vec<u8>, bytes: &[u8])
    ensures
        final(out)@ == old(out)@ + bytes@,
{
    let mut i: usize = 0;
    while i < bytes.len()
        invariant
            0 <= i <= bytes@.len(),
            out@ == old(out)@ + bytes@.subrange(0, i as int),
        decreases bytes@.len() - i,
    {
        out.push(bytes[i]);
        proof {
            assert(out@ =~= old(out)@ + bytes@.subrange(0, i + 1));
        }
        i = i + 1;
    }
    proof {
        assert(out@ =~= old(out)@ + bytes@);
    }
}

/// Serialize one body's table.
#[verifier::rlimit(100)]
fn push_body(out: &mut Vec<u8>, b: &Body)
    ensures
        final(out)@ == old(out)@ + ser_body(b@),
{
    let header: Vec<u8> = vec![0x5b, 0x5b, 0x62, 0x6f, 0x64, 0x69, 0x65, 0x73, 0x5d, 0x5d, 0x0a];
    let name_lit: Vec<u8> = vec![0x6e, 0x61, 0x6d, 0x65, 0x20, 0x3d, 0x20, 0x22];
    let gm_lit: Vec<u8> = vec![0x67, 0x6d, 0x20, 0x3d, 0x20];
    let radius_lit: Vec<u8> = vec![0x72, 0x61, 0x64, 0x69, 0x75, 0x73, 0x20, 0x3d, 0x20];
    let pos_lit: Vec<u8> = vec![
        0x70,
        0x6f,
        0x73,
        0x69,
        0x74,
        0x69,
        0x6f,
        0x6e,
        0x20,
        0x3d,
        0x20,
    ];
    let vel_lit: Vec<u8> = vec![0x76, 0x65, 0x6c, 0x6f, 0x63, 0x69, 0x74, 0x79, 0x20, 0x3d, 0x20];
    proof {
        assert(header@ =~= lit_header());
        assert(name_lit@ =~= lit_name());
        assert(gm_lit@ =~= lit_gm());
        assert(radius_lit@ =~= lit_radius());
        assert(pos_lit@ =~= lit_position());
        assert(vel_lit@ =~= lit_velocity());
    }
    push_all(out, header.as_slice());
    push_all(out, name_lit.as_slice());
    push_all(out, b.name.as_slice());
    out.push(0x22);
    out.push(0x0a);
    push_all(out, gm_lit.as_slice());
    push_num(out, b.gm);
    out.push(0x0a);
    push_all(out, radius_lit.as_slice());
    push_num(out, b.radius);
    out.push(0x0a);
    push_all(out, pos_lit.as_slice());
    push_triple(out, &b.pos);
    out.push(0x0a);
    push_all(out, vel_lit.as_slice());
    push_triple(out, &b.vel);
    out.push(0x0a);
    proof {
        assert(final(out)@ =~= old(out)@ + ser_body(b@));
    }
}

/// Serialize a body list.
pub fn serialize_bodies(bodies: &Vec<Body>) -> (r: Vec<u8>)
    ensures
        r@ == ser_bodies(bodies@.map_values(|b: Body| b@)),
{
    let mut out: Vec<u8> = Vec::new();
    let ghost views = bodies@.map_values(|b: Body| b@);
    let mut i: usize = 0;
    while i < bodies.len()
        invariant
            0 <= i <= bodies@.len(),
            views == bodies@.map_values(|b: Body| b@),
            out@ == ser_bodies(views.subrange(0, i as int)),
        decreases bodies@.len() - i,
    {
        let ghost pre = out@;
        push_body(&mut out, &bodies[i]);
        proof {
            lemma_ser_bodies_snoc(views.subrange(0, i as int), views[i as int]);
            assert(views.subrange(0, i as int).push(views[i as int]) =~= views.subrange(
                0,
                i + 1,
            ));
        }
        i = i + 1;
    }
    proof {
        assert(views.subrange(0, views.len() as int) =~= views);
    }
    out
}

/// First position at or after `i` holding a non-digit (or the end).
pub open spec fn digits_end(s: Seq<u8>, i: int) -> int
    decreases s.len() - i when 0 <= i <= s.len()
{
    if i < s.len() && is_digit(s[i]) {
        digits_end(s, i + 1)
    } else {
        i
    }
}

/// Value of the digit run `s[i .. j]`.
pub open spec fn digits_val(s: Seq<u8>, i: int, j: int) -> int
    decreases j - i,
{
    if j <= i {
        0
    } else {
        digits_val(s, i, j - 1) * 10 + (s[j - 1] - 0x30)
    }
}

/// Parse a signed six-fraction-digit decimal at `i`: the value in
/// fixed-point units and the position after it.
pub open spec fn parse_num_spec(s: Seq<u8>, i: int) -> Option<(int, int)>
    recommends
        0 <= i <= s.len(),
{
    let neg = i < s.len() && s[i] == 0x2d;
    let i0 = if neg {
        i + 1
    } else {
        i
    };
    let j = digits_end(s, i0);
    if j == i0 {
        None
    } else if j + 7 > s.len() {
        None
    } else if s[j] != 0x2e {
        None
    } else if !(is_digit(s[j + 1]) && is_digit(s[j + 2]) && is_digit(s[j + 3]) && is_digit(
        s[j + 4],
    ) && is_digit(s[j + 5]) && is_digit(s[j + 6])) {
        None
    } else {
        let a = digits_val(s, i0, j) * 1000000 + digits_val(s, j + 1, j + 7);
        let bound = if neg {
            i64::MAX + 1
        } else {
            i64::MAX as int
        };
        if a > bound {
            None
        } else {
            Some(
                (
                    if neg {
                        -a
                    } else {
                        a
                    },
                    j + 7,
                ),
            )
        }
    }
}

/// Position after `i` of a literal, if it is there.
pub open spec fn parse_lit_spec(s: Seq<u8>, i: int, lit: Seq<u8>) -> Option<int> {
    if 0 <= i && i + lit.len() <= s.len() && s.subrange(i, i + lit.len()) == lit {
        Some(i + lit.len())
    } else {
        None
    }
}

/// First position at or after `i` holding a double quote (or the end).
pub open spec fn quote_end(s: Seq<u8>, i: int) -> int
    decreases s.len() - i when 0 <= i <= s.len()
{
    if i < s.len() && s[i] != 0x22 {
        quote_end(s, i + 1)
    } else {
        i
    }
}

/// Parse a quoted name's contents at `i`: the name and the position of the
/// closing quote.
pub open spec fn parse_name_spec(s: Seq<u8>, i: int) -> Option<(Seq<u8>, int)>
    recommends
        0 <= i <= s.len(),
{
    let j = quote_end(s, i);
    if j >= s.len() {
        None
    } else if j == i {
        None
    } else if !name_ok(s.subrange(i, j)) {
        None
    } else {
        Some((s.subrange(i, j), j))
    }
}

/// Parse `[x, y, z]` at `i`.
pub open spec fn parse_triple_spec(s: Seq<u8>, i: int) -> Option<(V3i, int)>
    recommends
        0 <= i <= s.len(),
{
    match parse_lit_spec(s, i, seq![0x5bu8]) {
        None => None,
        Some(i1) => match parse_num_spec(s, i1) {
            None => None,
            Some((x, i2)) => match parse_lit_spec(s, i2, seq![0x2cu8, 0x20u8]) {
                None => None,
                Some(i3) => match parse_num_spec(s, i3) {
                    None => None,
                    Some((y, i4)) => match parse_lit_spec(s, i4, seq![0x2cu8, 0x20u8]) {
                        None => None,
                        Some(i5) => match parse_num_spec(s, i5) {
                            None => None,
                            Some((z, i6)) => match parse_lit_spec(s, i6, seq![0x5du8]) {
                                None => None,
                                Some(i7) => Some((V3i { x, y, z }, i7)),
                            },
                        },
                    },
                },
            },
        },
    }
}

/// Parse one body's table at `i`; rejects non-positive `gm` or `radius`,
/// which no well-formed body has.
pub open spec fn parse_body_spec(s: Seq<u8>, i: int) -> Option<(BodyView, int)>
    recommends
        0 <= i <= s.len(),
{
    match parse_lit_spec(s, i, lit_header()) {
        None => None,
        Some(i1) => match parse_lit_spec(s, i1, lit_name()) {
            None => None,
            Some(i2) => match parse_name_spec(s, i2) {
                None => None,
                Some((name, i3)) => match parse_lit_spec(s, i3, lit_name_end()) {
                    None => None,
                    Some(i4) => match parse_lit_spec(s, i4, lit_gm()) {
                        None => None,
                        Some(i5) => match parse_num_spec(s, i5) {
                            None => None,
                            Some((gm, i6)) => match parse_lit_spec(s, i6, seq![0x0au8]) {
                                None => None,
                                Some(i7) => match parse_lit_spec(s, i7, lit_radius()) {
                                    None => None,
                                    Some(i8) => match parse_num_spec(s, i8) {
                                        None => None,
                                        Some((radius, i9)) => match parse_lit_spec(
                                            s,
                                            i9,
                                            seq![0x0au8],
                                        ) {
                                            None => None,
                                            Some(i10) => match parse_lit_spec(
                                                s,
                                                i10,
                                                lit_position(),
                                            ) {
                                                None => None,
                                                Some(i11) => match parse_triple_spec(s, i11) {
                                                    None => None,
                                                    Some((pos, i12)) => match parse_lit_spec(
                                                        s,
                                                        i12,
                                                        seq![0x0au8],
                                                    ) {
                                                        None => None,
                                                        Some(i13) => match parse_lit_spec(
                                                            s,
                                                            i13,
                                                            lit_velocity(),
                                                        ) {
                                                            None => None,
                                                            Some(i14) => match parse_triple_spec(
                                                                s,
                                                                i14,
                                                            ) {
                                                                None => None,
                                                                Some((vel, i15)) => match parse_lit_spec(
                                                                    s,
                                                                    i15,
                                                                    seq![0x0au8],
                                                                ) {
                                                                    None => None,
                                                                    Some(i16) => if gm > 0 && radius
                                                                        > 0 {
                                                                        Some(
                                                                            (
                                                                                BodyView {
                                                                                    name,
                                                                                    gm,
                                                                                    radius,
                                                                                    pos,
                                                                                    vel,
                                                                                },
                                                                                i16,
                                                                            ),
                                                                        )
                                                                    } else {
                                                                        None
                                                                    },
                                                                },
                                                            },
                                                        },
                                                    },
                                                },
                                            },
                                        },
                                    },
                                },
                            },
                        },
                    },
                },
            },
        },
    }
}

/// Parse a whole snapshot: body tables to the end of the input.
pub open spec fn parse_bodies_spec(s: Seq<u8>, i: int) -> Option<Seq<BodyView>>
    decreases s.len() - i when 0 <= i <= s.len()
{
    if i == s.len() {
        Some(Seq::empty())
    } else {
        match parse_body_spec(s, i) {
            None => None,
            Some((b, j)) => if i < j <= s.len() {
                match parse_bodies_spec(s, j) {
                    None => None,
                    Some(rest) => Some(rest.insert(0, b)),
                }
            } else {
                None
            },
        }
    }
}

/// Every byte of `dec_digits` is a decimal digit, and there is at least
/// one.
proof fn lemma_dec_digits_are_digits(n: nat)
    ensures
        dec_digits(n).len() >= 1,
        forall|k: int| 0 <= k < dec_digits(n).len() ==> is_digit(#[trigger] dec_digits(n)[k]),
    decreases n,
{
    if n >= 10 {
        lemma_dec_digits_are_digits(n / 10);
    }
}

/// A digit run bounded by a non-digit (or the end) ends exactly there.
proof fn lemma_digits_end_at(s: Seq<u8>, i: int, j: int)
    requires
        0 <= i <= j <= s.len(),
        forall|k: int| i <= k < j ==> is_digit(#[trigger] s[k]),
        j == s.len() || !is_digit(s[j]),
    ensures
        digits_end(s, i) == j,
    decreases j - i,
{
    if i < j {
        lemma_digits_end_at(s, i + 1, j);
    }
}

/// The value of a serialized digit run is the number it was made from.
proof fn lemma_digits_val_of(s: Seq<u8>, i: int, n: nat)
    requires
        0 <= i,
        i + dec_digits(n).len() <= s.len(),
        s.subrange(i, i + dec_digits(n).len()) == dec_digits(n),
    ensures
        digits_val(s, i, i + dec_digits(n).len()) == n,
    decreases n,
{
    reveal_with_fuel(digits_val, 3);
    let l = dec_digits(n).len() as int;
    if n < 10 {
        assert(s.subrange(i, i + l)[0] == dec_digits(n)[0]);
        assert(s[i] == dec_digits(n)[0]);
    } else {
        let lp = dec_digits((n / 10) as nat).len() as int;
        assert(dec_digits(n) == dec_digits((n / 10) as nat).push((0x30 + n % 10) as u8));
        assert(s.subrange(i, i + lp) =~= dec_digits((n / 10) as nat)) by {
            assert forall|k: int| 0 <= k < lp implies #[trigger] s.subrange(i, i + lp)[k]
                == dec_digits((n / 10) as nat)[k] by {
                assert(s.subrange(i, i + l)[k] == dec_digits(n)[k]);
            }
        }
        lemma_digits_val_of(s, i, (n / 10) as nat);
        assert(s.subrange(i, i + l)[l - 1] == dec_digits(n)[l - 1]);
        assert(s[i + l - 1] == dec_digits(n)[l - 1]);
        vstd::arithmetic::div_mod::lemma_fundamental_div_mod(n as int, 10);
    }
}

/// A non-quote run bounded by a quote ends exactly there.
proof fn lemma_quote_end_at(s: Seq<u8>, i: int, j: int)
    requires
        0 <= i <= j < s.len(),
        forall|k: int| i <= k < j ==> #[trigger] s[k] != 0x22,
        s[j] == 0x22,
    ensures
        quote_end(s, i) == j,
    decreases j - i,
{
    if i < j {
        lemma_quote_end_at(s, i + 1, j);
    }
}

/// Recomposing a fraction count below 10^6 from its six decimal digits.
proof fn lemma_digits6(f: int)
    requires
        0 <= f < 1000000,
    ensures
        f == (f / 100000 % 10) * 100000 + (f / 10000 % 10) * 10000 + (f / 1000 % 10) * 1000 + (f
            / 100 % 10) * 100 + (f / 10 % 10) * 10 + f % 10,
        ((((((f / 100000 % 10) * 10 + f / 10000 % 10) * 10 + f / 1000 % 10) * 10 + f / 100 % 10)
            * 10 + f / 10 % 10) * 10 + f % 10) == f,
{
    vstd::arithmetic::div_mod::lemma_fundamental_div_mod(f, 10);
    vstd::arithmetic::div_mod::lemma_fundamental_div_mod(f / 10, 10);
    vstd::arithmetic::div_mod::lemma_fundamental_div_mod(f / 100, 10);
    vstd::arithmetic::div_mod::lemma_fundamental_div_mod(f / 1000, 10);
    vstd::arithmetic::div_mod::lemma_fundamental_div_mod(f / 10000, 10);
    vstd::arithmetic::div_mod::lemma_div_denominator(f, 10, 10);
    vstd::arithmetic::div_mod::lemma_div_denominator(f, 100, 10);
    vstd::arithmetic::div_mod::lemma_div_denominator(f, 1000, 10);
    vstd::arithmetic::div_mod::lemma_div_denominator(f, 10000, 10);
    vstd::arithmetic::div_mod::lemma_div_is_ordered(f, 999999, 100000);
    vstd::arithmetic::div_mod::lemma_div_pos_is_pos(f, 10);
    vstd::arithmetic::div_mod::lemma_div_pos_is_pos(f, 100);
    vstd::arithmetic::div_mod::lemma_div_pos_is_pos(f, 1000);
    vstd::arithmetic::div_mod::lemma_div_pos_is_pos(f, 10000);
    vstd::arithmetic::div_mod::lemma_div_pos_is_pos(f, 100000);
    vstd::arithmetic::div_mod::lemma_small_mod((f / 100000) as nat, 10);
}

/// Parsing a serialized number at its position yields the number back.
#[verifier::rlimit(100)]
proof fn lemma_parse_num_rt(s: Seq<u8>, i: int, v: int)
    requires
        i64::MIN <= v <= i64::MAX,
        0 <= i,
        i + ser_num(v).len() <= s.len(),
        s.subrange(i, i + ser_num(v).len()) == ser_num(v),
        i + ser_num(v).len() == s.len() || !is_digit(s[i + ser_num(v).len()]),
    ensures
        parse_num_spec(s, i) == Some((v, i + ser_num(v).len())),
{
    let a = abs_int(v) as nat;
    let hi = (a / 1000000) as nat;
    let lo = (a % 1000000) as nat;
    let dd = dec_digits(hi);
    let l = ser_num(v).len() as int;
    let i0 = if v < 0 {
        i + 1
    } else {
        i
    };
    lemma_dec_digits_are_digits(hi);
    assert forall|k: int| 0 <= k < l implies s[i + k] == ser_num(v)[k] by {
        assert(s.subrange(i, i + l)[k] == ser_num(v)[k]);
    }
    let j = i0 + dd.len() as int;
    // the sign, if any
    if v < 0 {
        assert(ser_num(v)[0] == 0x2d);
        assert(s[i] == 0x2d);
    } else {
        assert(ser_num(v)[0] == dd[0]);
        assert(is_digit(s[i]));
        assert(s[i] != 0x2d);
    }
    // the integer digit run and its terminator
    assert forall|k: int| i0 <= k < j implies is_digit(#[trigger] s[k]) by {
        assert(s[k] == ser_num(v)[k - i]);
        assert(ser_num(v)[k - i] == dd[k - i0]);
    }
    assert(s[j] == ser_num(v)[j - i]);
    assert(ser_num(v)[j - i] == 0x2e);
    lemma_digits_end_at(s, i0, j);
    // the six fraction digits
    assert forall|k: int| j + 1 <= k < j + 7 implies is_digit(#[trigger] s[k]) by {
        assert(s[k] == ser_num(v)[k - i]);
        assert(ser_num(v)[k - i] == dec6(lo)[k - (j + 1)]);
    }
    // the integer part's value
    assert(s.subrange(i0, j) =~= dd) by {
        assert forall|k: int| 0 <= k < dd.len() implies s.subrange(i0, j)[k] == dd[k] by {
            assert(s[i0 + k] == ser_num(v)[i0 + k - i]);
        }
    }
    lemma_digits_val_of(s, i0, hi);
    // the fraction's value
    assert(s.subrange(i, i + l)[j + 1 - i] == ser_num(v)[j + 1 - i]);
    assert(s.subrange(i, i + l)[j + 2 - i] == ser_num(v)[j + 2 - i]);
    assert(s.subrange(i, i + l)[j + 3 - i] == ser_num(v)[j + 3 - i]);
    assert(s.subrange(i, i + l)[j + 4 - i] == ser_num(v)[j + 4 - i]);
    assert(s.subrange(i, i + l)[j + 5 - i] == ser_num(v)[j + 5 - i]);
    assert(s.subrange(i, i + l)[j + 6 - i] == ser_num(v)[j + 6 - i]);
    assert(s[j + 1] == dec6(lo)[0]);
    assert(s[j + 2] == dec6(lo)[1]);
    assert(s[j + 3] == dec6(lo)[2]);
    assert(s[j + 4] == dec6(lo)[3]);
    assert(s[j + 5] == dec6(lo)[4]);
    assert(s[j + 6] == dec6(lo)[5]);
    lemma_digits6(lo as int);
    assert(digits_val(s, j + 1, j + 7) == lo) by {
        reveal_with_fuel(digits_val, 8);
    }
    // recompose
    vstd::arithmetic::div_mod::lemma_fundamental_div_mod(a as int, 1000000);
    assert(hi * 1000000 + lo == a);
}

/// Splitting a subrange equality at a concatenation.
proof fn lemma_subrange_split(s: Seq<u8>, i: int, x: Seq<u8>, y: Seq<u8>)
    requires
        0 <= i,
        i + x.len() + y.len() <= s.len(),
        s.subrange(i, i + x.len() + y.len()) == x + y,
    ensures
        s.subrange(i, i + x.len()) == x,
        s.subrange(i + x.len(), i + x.len() + y.len()) == y,
{
    let l = x.len() as int;
    let m = y.len() as int;
    assert(s.subrange(i, i + l) =~= x) by {
        assert forall|k: int| 0 <= k < l implies s.subrange(i, i + l)[k] == x[k] by {
            assert(s.subrange(i, i + l + m)[k] == (x + y)[k]);
        }
    }
    assert(s.subrange(i + l, i + l + m) =~= y) by {
        assert forall|k: int| 0 <= k < m implies s.subrange(i + l, i + l + m)[k] == y[k] by {
            assert(s.subrange(i, i + l + m)[l + k] == (x + y)[l + k]);
        }
    }
}

/// All numeric fields of a view fit the 64-bit range; true of every view
/// of an executable body.
pub open spec fn body_in_range(b: BodyView) -> bool {
    &&& i64::MIN <= b.gm <= i64::MAX
    &&& i64::MIN <= b.radius <= i64::MAX
    &&& i64::MIN <= b.pos.x <= i64::MAX
    &&& i64::MIN <= b.pos.y <= i64::MAX
    &&& i64::MIN <= b.pos.z <= i64::MAX
    &&& i64::MIN <= b.vel.x <= i64::MAX
    &&& i64::MIN <= b.vel.y <= i64::MAX
    &&& i64::MIN <= b.vel.z <= i64::MAX
}

/// Parsing a serialized 3-vector at its position yields it back.
#[verifier::rlimit(100)]
proof fn lemma_parse_triple_rt(s: Seq<u8>, i: int, v: V3i)
    requires
        i64::MIN <= v.x <= i64::MAX,
        i64::MIN <= v.y <= i64::MAX,
        i64::MIN <= v.z <= i64::MAX,
        0 <= i,
        i + ser_triple(v).len() <= s.len(),
        s.subrange(i, i + ser_triple(v).len()) == ser_triple(v),
    ensures
        parse_triple_spec(s, i) == Some((v, i + ser_triple(v).len())),
{
    let ob: Seq<u8> = seq![0x5bu8];
    let cm: Seq<u8> = seq![0x2cu8, 0x20u8];
    let cb: Seq<u8> = seq![0x5du8];
    let nx = ser_num(v.x);
    let ny = ser_num(v.y);
    let nz = ser_num(v.z);
    let whole = ser_triple(v);
    assert(whole =~= ob + (nx + (cm + (ny + (cm + (nz + cb))))));
    lemma_subrange_split(s, i, ob, nx + (cm + (ny + (cm + (nz + cb)))));
    let p1 = i + 1;
    lemma_subrange_split(s, p1, nx, cm + (ny + (cm + (nz + cb))));
    let p2 = p1 + nx.len() as int;
    lemma_subrange_split(s, p2, cm, ny + (cm + (nz + cb)));
    let p3 = p2 + 2;
    lemma_subrange_split(s, p3, ny, cm + (nz + cb));
    let p4 = p3 + ny.len() as int;
    lemma_subrange_split(s, p4, cm, nz + cb);
    let p5 = p4 + 2;
    lemma_subrange_split(s, p5, nz, cb);
    let p6 = p5 + nz.len() as int;
    // terminators after each number are non-digits
    assert(s[p2] == 0x2c) by {
        assert(s.subrange(p2, p3)[0] == cm[0]);
    }
    assert(s[p4] == 0x2c) by {
        assert(s.subrange(p4, p5)[0] == cm[0]);
    }
    assert(s[p6] == 0x5d) by {
        assert(s.subrange(p6, p6 + 1)[0] == cb[0]);
    }
    lemma_parse_num_rt(s, p1, v.x);
    lemma_parse_num_rt(s, p3, v.y);
    lemma_parse_num_rt(s, p5, v.z);
    assert(parse_lit_spec(s, i, ob) == Some(p1));
    assert(parse_lit_spec(s, p2, cm) == Some(p3));
    assert(parse_lit_spec(s, p4, cm) == Some(p5));
    assert(parse_lit_spec(s, p6, cb) == Some(p6 + 1));
    assert(V3i { x: v.x, y: v.y, z: v.z } =~= v);
}

/// Parsing a serialized body table at its position yields the body back.
#[verifier::rlimit(100)]
proof fn lemma_parse_body_rt(s: Seq<u8>, i: int, b: BodyView)
    requires
        b.wf(),
        body_in_range(b),
        0 <= i,
        i + ser_body(b).len() <= s.len(),
        s.subrange(i, i + ser_body(b).len()) == ser_body(b),
    ensures
        parse_body_spec(s, i) == Some((b, i + ser_body(b).len())),
{
    let nl: Seq<u8> = seq![0x0au8];
    let gm = ser_num(b.gm);
    let rad = ser_num(b.radius);
    let pt = ser_triple(b.pos);
    let vt = ser_triple(b.vel);
    let whole = ser_body(b);
    let r15 = vt + nl;
    let r14 = lit_velocity() + r15;
    let r13 = nl + r14;
    let r12 = pt + r13;
    let r11 = lit_position() + r12;
    let r10 = nl + r11;
    let r9 = rad + r10;
    let r8 = lit_radius() + r9;
    let r7 = nl + r8;
    let r6 = gm + r7;
    let r5 = lit_gm() + r6;
    let r4 = lit_name_end() + r5;
    let r3 = b.name + r4;
    let r2 = lit_name() + r3;
    assert(whole =~= lit_header() + r2);
    lemma_subrange_split(s, i, lit_header(), r2);
    let p1 = i + 11;
    lemma_subrange_split(s, p1, lit_name(), r3);
    let p2 = p1 + 8;
    lemma_subrange_split(s, p2, b.name, r4);
    let p3 = p2 + b.name.len() as int;
    lemma_subrange_split(s, p3, lit_name_end(), r5);
    let p4 = p3 + 2;
    lemma_subrange_split(s, p4, lit_gm(), r6);
    let p5 = p4 + 5;
    lemma_subrange_split(s, p5, gm, r7);
    let p6 = p5 + gm.len() as int;
    lemma_subrange_split(s, p6, nl, r8);
    let p7 = p6 + 1;
    lemma_subrange_split(s, p7, lit_radius(), r9);
    let p8 = p7 + 9;
    lemma_subrange_split(s, p8, rad, r10);
    let p9 = p8 + rad.len() as int;
    lemma_subrange_split(s, p9, nl, r11);
    let p10 = p9 + 1;
    lemma_subrange_split(s, p10, lit_position(), r12);
    let p11 = p10 + 11;
    lemma_subrange_split(s, p11, pt, r13);
    let p12 = p11 + pt.len() as int;
    lemma_subrange_split(s, p12, nl, r14);
    let p13 = p12 + 1;
    lemma_subrange_split(s, p13, lit_velocity(), r15);
    let p14 = p13 + 11;
    lemma_subrange_split(s, p14, vt, nl);
    let p15 = p14 + vt.len() as int;
    let p16 = p15 + 1;
    // the name scan stops at the closing quote
    assert forall|k: int| p2 <= k < p3 implies #[trigger] s[k] != 0x22 by {
        assert(s.subrange(p2, p3)[k - p2] == b.name[k - p2]);
    }
    assert(s[p3] == 0x22) by {
        assert(s.subrange(p3, p4)[0] == lit_name_end()[0]);
    }
    lemma_quote_end_at(s, p2, p3);
    assert(s.subrange(p2, p3) == b.name);
    // newline terminators after the numbers
    assert(s[p6] == 0x0a) by {
        assert(s.subrange(p6, p7)[0] == nl[0]);
    }
    assert(s[p9] == 0x0a) by {
        assert(s.subrange(p9, p10)[0] == nl[0]);
    }
    lemma_parse_num_rt(s, p5, b.gm);
    lemma_parse_num_rt(s, p8, b.radius);
    lemma_parse_triple_rt(s, p11, b.pos);
    lemma_parse_triple_rt(s, p14, b.vel);
    assert(parse_lit_spec(s, i, lit_header()) == Some(p1));
    assert(parse_lit_spec(s, p1, lit_name()) == Some(p2));
    assert(parse_name_spec(s, p2) == Some((b.name, p3)));
    assert(parse_lit_spec(s, p3, lit_name_end()) == Some(p4));
    assert(parse_lit_spec(s, p4, lit_gm()) == Some(p5));
    assert(parse_lit_spec(s, p6, nl) == Some(p7));
    assert(parse_lit_spec(s, p7, lit_radius()) == Some(p8));
    assert(parse_lit_spec(s, p9, nl) == Some(p10));
    assert(parse_lit_spec(s, p10, lit_position()) == Some(p11));
    assert(parse_lit_spec(s, p12, nl) == Some(p13));
    assert(parse_lit_spec(s, p13, lit_velocity()) == Some(p14));
    assert(parse_lit_spec(s, p15, nl) == Some(p16));
    assert(BodyView { name: b.name, gm: b.gm, radius: b.radius, pos: b.pos, vel: b.vel } =~= b);
}

/// Parsing a serialized body list from `i` to the end yields the list
/// back.
proof fn lemma_parse_bodies_rt(s: Seq<u8>, i: int, bs: Seq<BodyView>)
    requires
        forall|k: int| 0 <= k < bs.len() ==> (#[trigger] bs[k]).wf() && body_in_range(bs[k]),
        0 <= i,
        i + ser_bodies(bs).len() == s.len(),
        s.subrange(i, s.len() as int) == ser_bodies(bs),
    ensures
        parse_bodies_spec(s, i) == Some(bs),
    decreases bs.len(),
{
    if bs.len() == 0 {
        assert(i == s.len());
        assert(Seq::<BodyView>::empty() =~= bs);
    } else {
        let b = bs[0];
        let rest = bs.drop_first();
        assert(s.subrange(i, s.len() as int) == ser_body(b) + ser_bodies(rest));
        lemma_subrange_split_to_end(s, i, ser_body(b), ser_bodies(rest));
        let j = i + ser_body(b).len() as int;
        lemma_parse_body_rt(s, i, b);
        lemma_parse_bodies_rt(s, j, rest);
        assert(i < j) by {
            assert(ser_body(b).len() >= 11) by {
                assert(ser_body(b).len() >= lit_header().len());
            }
        }
        assert(rest.insert(0, b) =~= bs);
    }
}

/// `lemma_subrange_split` when the pieces reach the end of the sequence.
proof fn lemma_subrange_split_to_end(s: Seq<u8>, i: int, x: Seq<u8>, y: Seq<u8>)
    requires
        0 <= i,
        i + x.len() + y.len() == s.len(),
        s.subrange(i, s.len() as int) == x + y,
    ensures
        s.subrange(i, i + x.len()) == x,
        s.subrange(i + x.len(), s.len() as int) == y,
{
    lemma_subrange_split(s, i, x, y);
}

/// Round trip: parsing the serialization of any list of well-formed bodies
/// reproduces every body, field for field.
pub proof fn lemma_snapshot_roundtrip(bs: Seq<BodyView>)
    requires
        forall|k: int| 0 <= k < bs.len() ==> (#[trigger] bs[k]).wf() && body_in_range(bs[k]),
    ensures
        parse_bodies_spec(ser_bodies(bs), 0) == Some(bs),
{
    let s = ser_bodies(bs);
    assert(s.subrange(0, s.len() as int) =~= s);
    lemma_parse_bodies_rt(s, 0, bs);
}

/// Serializing one more body appends its table.
proof fn lemma_ser_bodies_snoc(bs: Seq<BodyView>, b: BodyView)
    ensures
        ser_bodies(bs.push(b)) == ser_bodies(bs) + ser_body(b),
    decreases bs.len(),
{
    if bs.len() == 0 {
        assert(bs.push(b).drop_first() =~= Seq::<BodyView>::empty());
        assert(ser_bodies(bs) + ser_body(b) =~= ser_body(b));
        assert(ser_bodies(bs.push(b)) =~= ser_body(b) + ser_bodies(Seq::<BodyView>::empty()));
        assert(ser_body(b) + Seq::<u8>::empty() =~= ser_body(b));
    } else {
        lemma_ser_bodies_snoc(bs.drop_first(), b);
        assert(bs.push(b).drop_first() =~= bs.drop_first().push(b));
        assert(bs.push(b)[0] == bs[0]);
        assert(ser_bodies(bs.push(b)) == ser_body(bs[0]) + (ser_bodies(bs.drop_first())
            + ser_body(b)));
        assert(ser_body(bs[0]) + (ser_bodies(bs.drop_first()) + ser_body(b)) =~= (ser_body(bs[0])
            + ser_bodies(bs.drop_first())) + ser_body(b));
    }
}

/// Saturation cap of the integer-part accumulator; any run reaching it
/// denotes a value beyond the 64-bit fixed-point range.
const DIGIT_SAT: u64 = 10_000_000_000_000;

/// Parse a signed decimal at `i`, exactly as `parse_num_spec` reads it.
#[verifier::rlimit(100)]
fn parse_num_x(s: &[u8], i: usize) -> (r: Option<(i64, usize)>)
    requires
        i <= s@.len(),
    ensures
        match r {
            Some(p) => parse_num_spec(s@, i as int) == Some((p.0 as int, p.1 as int)) && i < p.1
                <= s@.len(),
            None => parse_num_spec(s@, i as int) is None,
        },
{
    let n = s.len();
    let mut p = i;
    let mut neg = false;
    if p < n && s[p] == 0x2d {
        neg = true;
        p = p + 1;
    }
    let i0 = p;
    let mut acc: u64 = 0;
    while p < n && 0x30 <= s[p] && s[p] <= 0x39
        invariant
            i0 <= p <= n,
            n == s@.len(),
            forall|k: int| i0 <= k < p ==> is_digit(#[trigger] s@[k]),
            digits_val(s@, i0 as int, p as int) >= 0,
            acc as int == (if digits_val(s@, i0 as int, p as int) < DIGIT_SAT as int {
                digits_val(s@, i0 as int, p as int)
            } else {
                DIGIT_SAT as int
            }),
        decreases n - p,
    {
        let d: u64 = (s[p] - 0x30) as u64;
        let t: u64 = acc * 10 + d;
        let ghost dv = digits_val(s@, i0 as int, p as int);
        acc = if t > DIGIT_SAT {
            DIGIT_SAT
        } else {
            t
        };
        p = p + 1;
        proof {
            let dv2 = digits_val(s@, i0 as int, p as int);
            assert(dv2 == dv * 10 + (s@[p - 1] - 0x30));
            if dv >= DIGIT_SAT as int {
                assert(dv * 10 >= dv) by (nonlinear_arith)
                    requires
                        dv >= 0,
                ;
            }
        }
    }
    proof {
        lemma_digits_end_at(s@, i0 as int, p as int);
    }
    if p == i0 {
        return None;
    }
    if n - p < 7 {
        return None;
    }
    if s[p] != 0x2e {
        return None;
    }
    if !(digit_ok(s[p + 1]) && digit_ok(s[p + 2]) && digit_ok(s[p + 3]) && digit_ok(s[p + 4])
        && digit_ok(s[p + 5]) && digit_ok(s[p + 6])) {
        return None;
    }
    let f: u64 = ((((((s[p + 1] - 0x30) as u64) * 10 + (s[p + 2] - 0x30) as u64) * 10 + (s[p + 3]
        - 0x30) as u64) * 10 + (s[p + 4] - 0x30) as u64) * 10 + (s[p + 5] - 0x30) as u64) * 10 + (
    s[p + 6] - 0x30) as u64;
    proof {
        assert(f as int == digits_val(s@, p as int + 1, p as int + 7)) by {
            reveal_with_fuel(digits_val, 8);
        }
    }
    let ghost dv = digits_val(s@, i0 as int, p as int);
    let ghost a = dv * 1000000 + digits_val(s@, p as int + 1, p as int + 7);
    if acc >= DIGIT_SAT {
        proof {
            vstd::arithmetic::mul::lemma_mul_inequality(DIGIT_SAT as int, dv, 1000000);
            assert(dv * 1000000 == 1000000 * dv) by (nonlinear_arith);
            assert(DIGIT_SAT as int * 1000000 == 10_000_000_000_000_000_000) by (nonlinear_arith);
        }
        return None;
    }
    let a_w: u128 = (acc as u128) * 1_000_000 + (f as u128);
    proof {
        assert(a_w as int == a);
    }
    let bound: u128 = if neg {
        9_223_372_036_854_775_808
    } else {
        9_223_372_036_854_775_807
    };
    if a_w > bound {
        return None;
    }
    let v: i64 = if neg {
        (-(a_w as i128)) as i64
    } else {
        a_w as i64
    };
    Some((v, p + 7))
}

/// Match a literal at `i`, exactly as `parse_lit_spec` does.
fn match_lit(s: &[u8], i: usize, lit: &[u8]) -> (r: Option<usize>)
    requires
        i <= s@.len(),
    ensures
        match r {
            Some(j) => parse_lit_spec(s@, i as int, lit@) == Some(j as int) && j as int == i
                + lit@.len() && j <= s@.len(),
            None => parse_lit_spec(s@, i as int, lit@) is None,
        },
{
    let n = s.len();
    let m = lit.len();
    if n - i < m {
        return None;
    }
    let mut k: usize = 0;
    while k < m
        invariant
            0 <= k <= m,
            m == lit@.len(),
            n == s@.len(),
            i + m <= n,
            forall|q: int| 0 <= q < k ==> s@[i + q] == lit@[q],
        decreases m - k,
    {
        if s[i + k] != lit[k] {
            proof {
                assert(s@.subrange(i as int, i + m) != lit@) by {
                    assert(s@.subrange(i as int, i + m)[k as int] == s@[i + k]);
                }
            }
            return None;
        }
        k = k + 1;
    }
    proof {
        assert(s@.subrange(i as int, i + m) =~= lit@);
    }
    Some(i + m)
}

/// Parse a quoted name's contents at `i`, exactly as `parse_name_spec`
/// does.
fn parse_name_x(s: &[u8], i: usize) -> (r: Option<(Vec<u8>, usize)>)
    requires
        i <= s@.len(),
    ensures
        match r {
            Some(p) => parse_name_spec(s@, i as int) == Some((p.0@, p.1 as int)) && i < p.1
                < s@.len(),
            None => parse_name_spec(s@, i as int) is None,
        },
{
    let n = s.len();
    let mut j = i;
    while j < n && s[j] != 0x22
        invariant
            i <= j <= n,
            n == s@.len(),
            forall|k: int| i <= k < j ==> #[trigger] s@[k] != 0x22,
        decreases n - j,
    {
        j = j + 1;
    }
    proof {
        if j < n {
            lemma_quote_end_at(s@, i as int, j as int);
        } else {
            lemma_quote_end_is_end(s@, i as int);
        }
    }
    if j >= n {
        return None;
    }
    if j == i {
        return None;
    }
    let mut k = i;
    let mut name: Vec<u8> = Vec::new();
    while k < j
        invariant
            i <= k <= j <= n,
            i < j < n,
            n == s@.len(),
            quote_end(s@, i as int) == j as int,
            name@ =~= s@.subrange(i as int, k as int),
            forall|q: int|
                i <= q < k ==> 0x20 <= #[trigger] s@[q] <= 0x7e && s@[q] != 0x22 && s@[q] != 0x5c,
        decreases j - k,
    {
        let c = s[k];
        if c < 0x20 || c > 0x7e || c == 0x22 || c == 0x5c {
            proof {
                assert(!name_ok(s@.subrange(i as int, j as int))) by {
                    assert(s@.subrange(i as int, j as int)[k - i] == s@[k as int]);
                }
            }
            return None;
        }
        name.push(c);
        proof {
            assert(name@ =~= s@.subrange(i as int, k + 1));
        }
        k = k + 1;
    }
    proof {
        assert(name_ok(s@.subrange(i as int, j as int))) by {
            assert forall|q: int| 0 <= q < j - i implies 0x20 <= #[trigger] s@.subrange(
                i as int,
                j as int,
            )[q] <= 0x7e && s@.subrange(i as int, j as int)[q] != 0x22 && s@.subrange(
                i as int,
                j as int,
            )[q] != 0x5c by {
                assert(s@.subrange(i as int, j as int)[q] == s@[i + q]);
            }
        }
    }
    Some((name, j))
}

/// A quote scan that reaches the end without a quote.
proof fn lemma_quote_end_is_end(s: Seq<u8>, i: int)
    requires
        0 <= i <= s.len(),
        forall|k: int| i <= k < s.len() ==> #[trigger] s[k] != 0x22,
    ensures
        quote_end(s, i) == s.len(),
    decreases s.len() - i,
{
    if i < s.len() {
        lemma_quote_end_is_end(s, i + 1);
    }
}

/// Parse `[x, y, z]` at `i`, exactly as `parse_triple_spec` does.
fn parse_triple_x(s: &[u8], i: usize) -> (r: Option<(crate::vec3::Vec3, usize)>)
    requires
        i <= s@.len(),
    ensures
        match r {
            Some(p) => parse_triple_spec(s@, i as int) == Some((p.0@, p.1 as int)) && i < p.1
                <= s@.len(),
            None => parse_triple_spec(s@, i as int) is None,
        },
{
    let ob: Vec<u8> = vec![0x5b];
    let cm: Vec<u8> = vec![0x2c, 0x20];
    let cb: Vec<u8> = vec![0x5d];
    proof {
        assert(ob@ =~= seq![0x5bu8]);
        assert(cm@ =~= seq![0x2cu8, 0x20u8]);
        assert(cb@ =~= seq![0x5du8]);
    }
    let i1 = match match_lit(s, i, ob.as_slice()) {
        None => {
            return None;
        },
        Some(j) => j,
    };
    let (x, i2) = match parse_num_x(s, i1) {
        None => {
            return None;
        },
        Some(p) => p,
    };
    let i3 = match match_lit(s, i2, cm.as_slice()) {
        None => {
            return None;
        },
        Some(j) => j,
    };
    let (y, i4) = match parse_num_x(s, i3) {
        None => {
            return None;
        },
        Some(p) => p,
    };
    let i5 = match match_lit(s, i4, cm.as_slice()) {
        None => {
            return None;
        },
        Some(j) => j,
    };
    let (z, i6) = match parse_num_x(s, i5) {
        None => {
            return None;
        },
        Some(p) => p,
    };
    let i7 = match match_lit(s, i6, cb.as_slice()) {
        None => {
            return None;
        },
        Some(j) => j,
    };
    Some((crate::vec3::Vec3 { x, y, z }, i7))
}

/// Parse one body's table at `i`, exactly as `parse_body_spec` does.
#[verifier::rlimit(100)]
fn parse_body_x(s: &[u8], i: usize) -> (r: Option<(Body, usize)>)
    requires
        i <= s@.len(),
    ensures
        match r {
            Some(p) => parse_body_spec(s@, i as int) == Some((p.0@, p.1 as int)) && i < p.1
                <= s@.len() && p.0@.wf(),
            None => parse_body_spec(s@, i as int) is None,
        },
{
    let header: Vec<u8> = vec![0x5b, 0x5b, 0x62, 0x6f, 0x64, 0x69, 0x65, 0x73, 0x5d, 0x5d, 0x0a];
    let name_lit: Vec<u8> = vec![0x6e, 0x61, 0x6d, 0x65, 0x20, 0x3d, 0x20, 0x22];
    let name_end_lit: Vec<u8> = vec![0x22, 0x0a];
    let gm_lit: Vec<u8> = vec![0x67, 0x6d, 0x20, 0x3d, 0x20];
    let radius_lit: Vec<u8> = vec![0x72, 0x61, 0x64, 0x69, 0x75, 0x73, 0x20, 0x3d, 0x20];
    let pos_lit: Vec<u8> = vec![
        0x70,
        0x6f,
        0x73,
        0x69,
        0x74,
        0x69,
        0x6f,
        0x6e,
        0x20,
        0x3d,
        0x20,
    ];
    let vel_lit: Vec<u8> = vec![0x76, 0x65, 0x6c, 0x6f, 0x63, 0x69, 0x74, 0x79, 0x20, 0x3d, 0x20];
    let nl_lit: Vec<u8> = vec![0x0a];
    proof {
        assert(header@ =~= lit_header());
        assert(name_lit@ =~= lit_name());
        assert(name_end_lit@ =~= lit_name_end());
        assert(gm_lit@ =~= lit_gm());
        assert(radius_lit@ =~= lit_radius());
        assert(pos_lit@ =~= lit_position());
        assert(vel_lit@ =~= lit_velocity());
        assert(nl_lit@ =~= seq![0x0au8]);
    }
    let i1 = match match_lit(s, i, header.as_slice()) {
        None => {
            return None;
        },
        Some(j) => j,
    };
    let i2 = match match_lit(s, i1, name_lit.as_slice()) {
        None => {
            return None;
        },
        Some(j) => j,
    };
    let (name, i3) = match parse_name_x(s, i2) {
        None => {
            return None;
        },
        Some(p) => p,
    };
    let i4 = match match_lit(s, i3, name_end_lit.as_slice()) {
        None => {
            return None;
        },
        Some(j) => j,
    };
    let i5 = match match_lit(s, i4, gm_lit.as_slice()) {
        None => {
            return None;
        },
        Some(j) => j,
    };
    let (gm, i6) = match parse_num_x(s, i5) {
        None => {
            return None;
        },
        Some(p) => p,
    };
    let i7 = match match_lit(s, i6, nl_lit.as_slice()) {
        None => {
            return None;
        },
        Some(j) => j,
    };
    let i8 = match match_lit(s, i7, radius_lit.as_slice()) {
        None => {
            return None;
        },
        Some(j) => j,
    };
    let (radius, i9) = match parse_num_x(s, i8) {
        None => {
            return None;
        },
        Some(p) => p,
    };
    let i10 = match match_lit(s, i9, nl_lit.as_slice()) {
        None => {
            return None;
        },
        Some(j) => j,
    };
    let i11 = match match_lit(s, i10, pos_lit.as_slice()) {
        None => {
            return None;
        },
        Some(j) => j,
    };
    let (pos, i12) = match parse_triple_x(s, i11) {
        None => {
            return None;
        },
        Some(p) => p,
    };
    let i13 = match match_lit(s, i12, nl_lit.as_slice()) {
        None => {
            return None;
        },
        Some(j) => j,
    };
    let i14 = match match_lit(s, i13, vel_lit.as_slice()) {
        None => {
            return None;
        },
        Some(j) => j,
    };
    let (vel, i15) = match parse_triple_x(s, i14) {
        None => {
            return None;
        },
        Some(p) => p,
    };
    let i16 = match match_lit(s, i15, nl_lit.as_slice()) {
        None => {
            return None;
        },
        Some(j) => j,
    };
    if gm <= 0 || radius <= 0 {
        return None;
    }
    let body = Body::new(name, gm, radius, pos, vel);
    Some((body, i16))
}

/// Parse a whole snapshot file: body tables to the end of the input;
/// `None` exactly when `parse_bodies_spec` rejects the bytes.
pub fn parse_bodies(s: &[u8]) -> (r: Option<Vec<Body>>)
    ensures
        match r {
            Some(bodies) => parse_bodies_spec(s@, 0) == Some(bodies@.map_values(|b: Body| b@))
                && forall|k: int|
                0 <= k < bodies@.len() ==> (#[trigger] bodies@[k])@.wf(),
            None => parse_bodies_spec(s@, 0) is None,
        },
{
    let n = s.len();
    let mut pos: usize = 0;
    let mut acc: Vec<Body> = Vec::new();
    loop
        invariant
            0 <= pos <= n,
            n == s@.len(),
            forall|k: int| 0 <= k < acc@.len() ==> (#[trigger] acc@[k])@.wf(),
            (match parse_bodies_spec(s@, pos as int) {
                Some(rest) => parse_bodies_spec(s@, 0) == Some(
                    acc@.map_values(|b: Body| b@) + rest,
                ),
                None => parse_bodies_spec(s@, 0) is None,
            }),
        ensures
            pos == n,
            parse_bodies_spec(s@, 0) == Some(acc@.map_values(|b: Body| b@)),
        decreases n - pos,
    {
        if pos == n {
            proof {
                assert(parse_bodies_spec(s@, pos as int) == Some(Seq::<BodyView>::empty()));
                assert(acc@.map_values(|b: Body| b@) + Seq::<BodyView>::empty() =~= acc@.map_values(
                    |b: Body| b@,
                ));
            }
            break ;
        }
        let ghost pre = acc@.map_values(|b: Body| b@);
        match parse_body_x(s, pos) {
            None => {
                proof {
                    assert(parse_bodies_spec(s@, pos as int) is None);
                }
                return None;
            },
            Some((b, j)) => {
                let ghost bv = b@;
                let ghost p0 = pos as int;
                acc.push(b);
                proof {
                    assert(acc@.map_values(|b: Body| b@) =~= pre.push(bv));
                    match parse_bodies_spec(s@, j as int) {
                        Some(rest) => {
                            assert(parse_bodies_spec(s@, p0) == Some(rest.insert(0, bv)));
                            assert(pre + rest.insert(0, bv) =~= pre.push(bv) + rest);
                        },
                        None => {
                            assert(parse_bodies_spec(s@, p0) is None);
                        },
                    }
                }
                pos = j;
            },
        }
    }
    Some(acc)
}

impl crate::sim::SimState {
    /// Serialize this state's body list in the snapshot format; the caller
    /// persists the bytes.
    pub fn save(&self) -> (r: Vec<u8>)
        ensures
            r@ == ser_bodies(self@.bodies),
    {
        serialize_bodies(self.bodies())
    }

    /// Rebuild a state (at the epoch; the caller sets the time) from
    /// snapshot bytes; `None` exactly on input the format's semantics
    /// rejects, such as a missing field or a field of the wrong shape.
    pub fn load(bytes: &[u8]) -> (r: Option<crate::sim::SimState>)
        ensures
            match r {
                Some(st) => parse_bodies_spec(bytes@, 0) == Some(st@.bodies) && st@.time == 0
                    && st@.wf(),
                None => parse_bodies_spec(bytes@, 0) is None,
            },
    {
        match parse_bodies(bytes) {
            None => None,
            Some(bodies) => {
                let mut st = crate::sim::SimState::new();
                let mut i: usize = 0;
                let n = bodies.len();
                let ghost views = bodies@.map_values(|b: Body| b@);
                let mut it = bodies;
                // move the bodies over in order
                let mut out: Vec<Body> = Vec::new();
                while i < n
                    invariant
                        0 <= i <= n,
                        n == it@.len(),
                        views == it@.map_values(|b: Body| b@),
                        st@.bodies =~= views.subrange(0, i as int),
                        st@.time == 0,
                    decreases n - i,
                {
                    let b = it[i].clone();
                    st = st.with_body(b);
                    proof {
                        assert(st@.bodies =~= views.subrange(0, i + 1));
                    }
                    i = i + 1;
                }
                proof {
                    assert(views.subrange(0, n as int) =~= views);
                }
                Some(st)
            },
        }
    }
}

} // verus!
