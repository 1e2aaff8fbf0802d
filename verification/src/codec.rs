//! The cache artifact codec. An artifact is the record serialized as compact
//! JSON text with a fixed field order and the provider's wire field names.
//! The grammar is stated twice over the same literals: `enc_*` gives the one
//! text a record serializes to, and `parse_*` is the recursive-descent
//! reading of that grammar. The encoder and decoder are verified against
//! them, and the round-trip law ties the two together.

use vstd::prelude::*;
use vstd::string::StringExecFns;

use crate::digits::{
    char_of_digit, dec_digits, digit_of, digit_value, pow10, push_digit, push_u64, seq_val,
};
use crate::record::{
    plain_char, plain_seq, CondV, ConditionObservation, DailyForecast, DailyV, ForecastRecord,
    RecordV, TempRangeV, TempValueV, Temperature, TemperatureValue, dailies_view,
};

verus! {

/// The artifact text is present but does not follow the artifact grammar.
#[derive(Clone, Copy, Debug, PartialEq, Eq, Structural)]
pub struct DecodeError;

// ---------------------------------------------------------------------------
// Serialized form
// ---------------------------------------------------------------------------

/// The closing quote of a text field.
pub open spec fn quote() -> Seq<char> {
    "\""@
}

/// A signed integer: a minus sign for negative values, then canonical digits.
pub open spec fn enc_i64(v: int) -> Seq<char> {
    if v < 0 {
        "-"@ + dec_digits((-v) as nat)
    } else {
        dec_digits(v as nat)
    }
}

/// A signed tenths count rendered as a decimal number with one fractional
/// digit: sign, whole part in canonical digits, a point, one digit.
pub open spec fn enc_tenths(t: int) -> Seq<char> {
    let mag = if t < 0 {
        -t
    } else {
        t
    };
    (if t < 0 {
        "-"@
    } else {
        Seq::<char>::empty()
    }) + dec_digits((mag / 10) as nat) + "."@ + seq![char_of_digit(mag % 10)]
}

/// A condition observation object.
pub open spec fn enc_cond(c: CondV) -> Seq<char> {
    "{\"Icon\":"@ + enc_i64(c.icon) + ",\"IconPhrase\":\""@ + c.phrase + quote() + "}"@
}

/// One temperature bound object.
pub open spec fn enc_tv(v: TempValueV) -> Seq<char> {
    "{\"Value\":"@ + enc_tenths(v.tenths) + ",\"Unit\":\""@ + v.unit + quote() + ",\"UnitType\":"@
        + dec_digits(v.unit_type as nat) + "}"@
}

/// One daily forecast object.
pub open spec fn enc_daily(d: DailyV) -> Seq<char> {
    "{\"Date\":\""@ + d.date + quote() + ",\"Day\":"@ + enc_cond(d.day) + ",\"Night\":"@
        + enc_cond(d.night) + ",\"Temperature\":{\"Minimum\":"@ + enc_tv(d.temperature.minimum)
        + ",\"Maximum\":"@ + enc_tv(d.temperature.maximum) + "},\"Link\":\""@ + d.link + quote()
        + "}"@
}

/// The daily forecasts joined by commas.
pub open spec fn enc_dailies(ds: Seq<DailyV>) -> Seq<char>
    decreases ds.len(),
{
    if ds.len() == 0 {
        Seq::empty()
    } else if ds.len() == 1 {
        enc_daily(ds[0])
    } else {
        enc_dailies(ds.drop_last()) + ","@ + enc_daily(ds.last())
    }
}

/// The whole artifact text for a record.
pub open spec fn enc_record(r: RecordV) -> Seq<char> {
    "{\"Headline\":{\"Text\":\""@ + r.headline + quote() + "},\"DailyForecasts\":["@ + enc_dailies(
        r.dailies,
    ) + "]}"@
}

// ---------------------------------------------------------------------------
// Reading the serialized form
// ---------------------------------------------------------------------------

/// Consumes the exact literal `lit` at `pos`.
pub open spec fn parse_lit(s: Seq<char>, pos: int, lit: Seq<char>) -> Option<int> {
    if 0 <= pos && pos + lit.len() <= s.len() && s.subrange(pos, pos + lit.len()) == lit {
        Some(pos + lit.len())
    } else {
        None
    }
}

/// Consumes plain text up to and including its closing quote.
pub open spec fn parse_string(s: Seq<char>, pos: int) -> Option<(Seq<char>, int)>
    decreases s.len() - pos,
{
    if pos < 0 || pos >= s.len() {
        None
    } else if s[pos] == '"' {
        Some((Seq::empty(), pos + 1))
    } else if plain_char(s[pos]) {
        match parse_string(s, pos + 1) {
            Some((t, p)) => Some((seq![s[pos]] + t, p)),
            None => None,
        }
    } else {
        None
    }
}

/// Consumes digits as long as they last, folding them onto `acc`.
pub open spec fn parse_digits(s: Seq<char>, pos: int, acc: nat) -> (nat, int)
    decreases s.len() - pos,
{
    if 0 <= pos < s.len() {
        match digit_of(s[pos]) {
            Some(d) => parse_digits(s, pos + 1, acc * 10 + d as nat),
            None => (acc, pos),
        }
    } else {
        (acc, pos)
    }
}

/// Consumes a canonical unsigned number: at least one digit, no leading
/// zero except for zero itself, value within the 64-bit range.
pub open spec fn parse_u64(s: Seq<char>, pos: int) -> Option<(nat, int)> {
    if 0 <= pos < s.len() && digit_of(s[pos]) is Some {
        if s[pos] == '0' {
            if pos + 1 < s.len() && digit_of(s[pos + 1]) is Some {
                None
            } else {
                Some((0, pos + 1))
            }
        } else {
            let (n, p) = parse_digits(s, pos, 0);
            if n <= 0xffff_ffff_ffff_ffff {
                Some((n, p))
            } else {
                None
            }
        }
    } else {
        None
    }
}

/// Consumes a signed number: an optional minus sign (never before zero),
/// then a canonical unsigned number, within the signed 64-bit range.
pub open spec fn parse_i64(s: Seq<char>, pos: int) -> Option<(int, int)> {
    if 0 <= pos < s.len() && s[pos] == '-' {
        match parse_u64(s, pos + 1) {
            Some((n, p)) => if 1 <= n <= 0x7fff_ffff_ffff_ffff {
                Some((-(n as int), p))
            } else {
                None
            },
            None => None,
        }
    } else {
        match parse_u64(s, pos) {
            Some((n, p)) => if n <= 0x7fff_ffff_ffff_ffff {
                Some((n as int, p))
            } else {
                None
            },
            None => None,
        }
    }
}

/// Consumes a decimal number with one fractional digit, as tenths: an
/// optional minus sign (never before zero), whole part, point, one digit.
pub open spec fn parse_tenths(s: Seq<char>, pos: int) -> Option<(int, int)> {
    let neg = 0 <= pos < s.len() && s[pos] == '-';
    let q = if neg {
        pos + 1
    } else {
        pos
    };
    match parse_u64(s, q) {
        Some((ip, p)) => if p < s.len() && s[p] == '.' && p + 1 < s.len() && digit_of(
            s[p + 1],
        ) is Some {
            let mag = ip * 10 + digit_of(s[p + 1])->Some_0;
            if neg {
                if 1 <= mag <= 0x7fff_ffff_ffff_ffff {
                    Some((-mag, p + 2))
                } else {
                    None
                }
            } else {
                if mag <= 0x7fff_ffff_ffff_ffff {
                    Some((mag, p + 2))
                } else {
                    None
                }
            }
        } else {
            None
        },
        None => None,
    }
}

/// Consumes a condition observation object.
pub open spec fn parse_cond(s: Seq<char>, pos: int) -> Option<(CondV, int)> {
    match parse_lit(s, pos, "{\"Icon\":"@) {
        Some(p1) => match parse_i64(s, p1) {
            Some((icon, p2)) => if -0x8000_0000 <= icon <= 0x7fff_ffff {
                match parse_lit(s, p2, ",\"IconPhrase\":\""@) {
                    Some(p3) => match parse_string(s, p3) {
                        Some((t, p4)) => match parse_lit(s, p4, "}"@) {
                            Some(p5) => Some((CondV { icon, phrase: t }, p5)),
                            None => None,
                        },
                        None => None,
                    },
                    None => None,
                }
            } else {
                None
            },
            None => None,
        },
        None => None,
    }
}

/// Consumes one temperature bound object.
pub open spec fn parse_tv(s: Seq<char>, pos: int) -> Option<(TempValueV, int)> {
    match parse_lit(s, pos, "{\"Value\":"@) {
        Some(p1) => match parse_tenths(s, p1) {
            Some((t, p2)) => match parse_lit(s, p2, ",\"Unit\":\""@) {
                Some(p3) => match parse_string(s, p3) {
                    Some((u, p4)) => match parse_lit(s, p4, ",\"UnitType\":"@) {
                        Some(p5) => match parse_u64(s, p5) {
                            Some((ut, p6)) => if ut <= 0xffff_ffff {
                                match parse_lit(s, p6, "}"@) {
                                    Some(p7) => Some(
                                        (
                                            TempValueV {
                                                tenths: t,
                                                unit: u,
                                                unit_type: ut as int,
                                            },
                                            p7,
                                        ),
                                    ),
                                    None => None,
                                }
                            } else {
                                None
                            },
                            None => None,
                        },
                        None => None,
                    },
                    None => None,
                },
                None => None,
            },
            None => None,
        },
        None => None,
    }
}

/// Consumes one daily forecast object.
pub open spec fn parse_daily(s: Seq<char>, pos: int) -> Option<(DailyV, int)> {
    match parse_lit(s, pos, "{\"Date\":\""@) {
        Some(p1) => match parse_string(s, p1) {
            Some((date, p2)) => match parse_lit(s, p2, ",\"Day\":"@) {
                Some(p3) => match parse_cond(s, p3) {
                    Some((day, p4)) => match parse_lit(s, p4, ",\"Night\":"@) {
                        Some(p5) => match parse_cond(s, p5) {
                            Some((night, p6)) => match parse_lit(
                                s,
                                p6,
                                ",\"Temperature\":{\"Minimum\":"@,
                            ) {
                                Some(p7) => match parse_tv(s, p7) {
                                    Some((mn, p8)) => match parse_lit(s, p8, ",\"Maximum\":"@) {
                                        Some(p9) => match parse_tv(s, p9) {
                                            Some((mx, p10)) => match parse_lit(
                                                s,
                                                p10,
                                                "},\"Link\":\""@,
                                            ) {
                                                Some(p11) => match parse_string(s, p11) {
                                                    Some((link, p12)) => match parse_lit(
                                                        s,
                                                        p12,
                                                        "}"@,
                                                    ) {
                                                        Some(p13) => Some(
                                                            (
                                                                DailyV {
                                                                    date,
                                                                    day,
                                                                    night,
                                                                    temperature: TempRangeV {
                                                                        minimum: mn,
                                                                        maximum: mx,
                                                                    },
                                                                    link,
                                                                },
                                                                p13,
                                                            ),
                                                        ),
                                                        None => None,
                                                    },
                                                    None => None,
                                                },
                                                None => None,
                                            },
                                            None => None,
                                        },
                                        None => None,
                                    },
                                    None => None,
                                },
                                None => None,
                            },
                            None => None,
                        },
                        None => None,
                    },
                    None => None,
                },
                None => None,
            },
            None => None,
        },
        None => None,
    }
}

/// Consumes one-or-more daily forecast objects joined by commas. `fuel`
/// bounds the recursion; any value at least the number of objects is enough.
pub open spec fn parse_dailies(s: Seq<char>, pos: int, fuel: nat) -> Option<(Seq<DailyV>, int)>
    decreases fuel,
{
    if fuel == 0 {
        None
    } else {
        match parse_daily(s, pos) {
            Some((d, p)) => if p < s.len() && s[p] == ',' {
                match parse_dailies(s, p + 1, (fuel - 1) as nat) {
                    Some((ds, p2)) => Some((seq![d] + ds, p2)),
                    None => None,
                }
            } else {
                Some((seq![d], p))
            },
            None => None,
        }
    }
}

/// Reads a whole artifact text: the record grammar with nothing after it.
pub open spec fn parse_record(s: Seq<char>) -> Option<RecordV> {
    match parse_lit(s, 0, "{\"Headline\":{\"Text\":\""@) {
        Some(p1) => match parse_string(s, p1) {
            Some((h, p2)) => match parse_lit(s, p2, "},\"DailyForecasts\":["@) {
                Some(p3) => match parse_dailies(s, p3, s.len() as nat) {
                    Some((ds, p4)) => match parse_lit(s, p4, "]}"@) {
                        Some(p5) => if p5 == s.len() {
                            Some(RecordV { headline: h, dailies: ds })
                        } else {
                            None
                        },
                        None => None,
                    },
                    None => None,
                },
                None => None,
            },
            None => None,
        },
        None => None,
    }
}

// ---------------------------------------------------------------------------
// Facts about the reading functions
// ---------------------------------------------------------------------------

/// A digit run only moves the position forward, only over digits, stops at
/// the first non-digit, and only grows the accumulator.
pub proof fn lemma_parse_digits_bounds(s: Seq<char>, pos: int, acc: nat)
    requires
        0 <= pos <= s.len(),
    ensures
        ({
            let (n, p) = parse_digits(s, pos, acc);
            &&& pos <= p <= s.len()
            &&& n >= acc
            &&& forall|i: int| pos <= i < p ==> (#[trigger] digit_of(s[i])) is Some
            &&& (p == s.len() || digit_of(s[p]) is None)
        }),
    decreases s.len() - pos,
{
    if pos < s.len() {
        match digit_of(s[pos]) {
            Some(d) => {
                lemma_parse_digits_bounds(s, pos + 1, acc * 10 + d as nat);
                assert(acc * 10 + d as nat >= acc) by (nonlinear_arith);
            },
            None => {},
        }
    }
}

/// A digit run starting from a nonzero accumulator appends the digits it
/// passes over to the accumulator's canonical rendering.
pub proof fn lemma_parse_digits_sound(s: Seq<char>, pos: int, acc: nat)
    requires
        0 <= pos <= s.len(),
        acc >= 1,
    ensures
        ({
            let (n, p) = parse_digits(s, pos, acc);
            dec_digits(n) == dec_digits(acc) + s.subrange(pos, p)
        }),
    decreases s.len() - pos,
{
    lemma_parse_digits_bounds(s, pos, acc);
    let (n, p) = parse_digits(s, pos, acc);
    if pos < s.len() && digit_of(s[pos]) is Some {
        let d = digit_of(s[pos])->Some_0;
        crate::digits::lemma_digit_char_id(d, s[pos]);
        let acc2 = acc * 10 + d as nat;
        assert(acc2 >= 10) by (nonlinear_arith)
            requires
                acc >= 1,
                0 <= d < 10,
                acc2 == acc * 10 + d,
        ;
        lemma_parse_digits_sound(s, pos + 1, acc2);
        assert(acc2 / 10 == acc && acc2 % 10 == d) by (nonlinear_arith)
            requires
                0 <= d < 10,
                acc2 == acc * 10 + d,
        ;
        assert(dec_digits(acc2) =~= dec_digits(acc) + seq![s[pos]]);
        assert(dec_digits(acc) + seq![s[pos]] + s.subrange(pos + 1, p) =~= dec_digits(acc)
            + s.subrange(pos, p));
    } else {
        assert(s.subrange(pos, p) =~= Seq::<char>::empty());
        assert(dec_digits(n) =~= dec_digits(acc) + s.subrange(pos, p));
    }
}

/// A digit run over a region known to hold `k` digits followed by a
/// non-digit consumes exactly that region.
pub proof fn lemma_parse_digits_run(s: Seq<char>, pos: int, k: int, acc: nat)
    requires
        0 <= pos,
        0 <= k,
        pos + k <= s.len(),
        forall|i: int| pos <= i < pos + k ==> (#[trigger] digit_of(s[i])) is Some,
        pos + k == s.len() || digit_of(s[pos + k]) is None,
    ensures
        parse_digits(s, pos, acc) == ((acc * pow10(k as nat) + seq_val(s.subrange(pos, pos + k)),
        pos + k)),
    decreases k,
{
    if k == 0 {
        assert(seq_val(s.subrange(pos, pos)) == 0);
        assert(acc * 1 == acc) by (nonlinear_arith);
    } else {
        let d = digit_of(s[pos])->Some_0;
        crate::digits::lemma_digit_char_id(d, s[pos]);
        let acc2 = acc * 10 + d as nat;
        lemma_parse_digits_run(s, pos + 1, k - 1, acc2);
        let rest = s.subrange(pos + 1, pos + k);
        let whole = s.subrange(pos, pos + k);
        assert(whole =~= seq![char_of_digit(d)] + rest);
        crate::digits::lemma_seq_val_prepend(d, rest);
        assert(seq_val(whole) == d * pow10((k - 1) as nat) + seq_val(rest));
        assert(acc2 * pow10((k - 1) as nat) + seq_val(rest) == acc * pow10(k as nat) + seq_val(
            whole,
        )) by (nonlinear_arith)
            requires
                acc2 == acc * 10 + d,
                pow10(k as nat) == 10 * pow10((k - 1) as nat),
                seq_val(whole) == d * pow10((k - 1) as nat) + seq_val(rest),
                k >= 1,
        ;
    }
}

/// What an accepted unsigned number means: exactly the canonical digits of
/// its value were consumed, and a non-digit (or the end) follows.
pub proof fn lemma_parse_u64_sound(s: Seq<char>, pos: int)
    requires
        parse_u64(s, pos) is Some,
    ensures
        ({
            let (n, p) = parse_u64(s, pos)->Some_0;
            &&& 0 <= pos < p <= s.len()
            &&& s.subrange(pos, p) == dec_digits(n)
            &&& n <= 0xffff_ffff_ffff_ffff
            &&& (p == s.len() || digit_of(s[p]) is None)
        }),
{
    let (n, p) = parse_u64(s, pos)->Some_0;
    if s[pos] == '0' {
        assert(s.subrange(pos, pos + 1) =~= seq!['0']);
        crate::digits::lemma_dec_digits_props(0);
    } else {
        let d0 = digit_of(s[pos])->Some_0;
        crate::digits::lemma_digit_char_id(d0, s[pos]);
        assert(d0 >= 1);
        assert(parse_digits(s, pos, 0) == parse_digits(s, pos + 1, d0 as nat));
        lemma_parse_digits_bounds(s, pos + 1, d0 as nat);
        lemma_parse_digits_sound(s, pos + 1, d0 as nat);
        assert(dec_digits(d0 as nat) =~= seq![s[pos]]);
        assert(dec_digits(n) =~= seq![s[pos]] + s.subrange(pos + 1, p));
        assert(s.subrange(pos, p) =~= seq![s[pos]] + s.subrange(pos + 1, p));
    }
}

/// A region holding the canonical digits of `n` followed by a non-digit is
/// accepted as the number `n`.
pub proof fn lemma_parse_u64_complete(s: Seq<char>, pos: int, n: nat)
    requires
        0 <= pos,
        n <= 0xffff_ffff_ffff_ffff,
        pos + dec_digits(n).len() <= s.len(),
        s.subrange(pos, pos + dec_digits(n).len()) == dec_digits(n),
        pos + dec_digits(n).len() == s.len() || digit_of(s[pos + dec_digits(n).len()]) is None,
    ensures
        parse_u64(s, pos) == Some((n, pos + dec_digits(n).len())),
{
    let ds = dec_digits(n);
    let k = ds.len() as int;
    crate::digits::lemma_dec_digits_props(n);
    assert(forall|i: int| pos <= i < pos + k ==> (#[trigger] digit_of(s[i])) is Some) by {
        assert(forall|i: int| pos <= i < pos + k ==> s[i] == ds[i - pos]);
    }
    assert(digit_of(s[pos]) is Some);
    if n == 0 {
        assert(s[pos] == '0');
        assert(pos + 1 == s.len() || digit_of(s[pos + 1]) is None);
    } else {
        assert(s[pos] == ds[0]);
        assert(s[pos] != '0');
        lemma_parse_digits_run(s, pos, k, 0);
        assert(seq_val(s.subrange(pos, pos + k)) == n);
        assert(0 * pow10(k as nat) + n == n) by (nonlinear_arith);
    }
}

/// A region of plain characters up to a closing quote reads back as exactly
/// those characters.
pub proof fn lemma_parse_string_complete(s: Seq<char>, pos: int, j: int)
    requires
        0 <= pos <= j < s.len(),
        forall|i: int| pos <= i < j ==> #[trigger] plain_char(s[i]),
        s[j] == '"',
    ensures
        parse_string(s, pos) == Some((s.subrange(pos, j), j + 1)),
    decreases j - pos,
{
    if pos == j {
        assert(s.subrange(pos, j) =~= Seq::<char>::empty());
    } else {
        assert(plain_char(s[pos]));
        lemma_parse_string_complete(s, pos + 1, j);
        assert(s.subrange(pos, j) =~= seq![s[pos]] + s.subrange(pos + 1, j));
    }
}

/// What an accepted text field means: the consumed region is the field's
/// plain characters followed by the closing quote.
pub proof fn lemma_parse_string_sound(s: Seq<char>, pos: int)
    requires
        parse_string(s, pos) is Some,
    ensures
        ({
            let (t, p) = parse_string(s, pos)->Some_0;
            &&& 0 <= pos < p <= s.len()
            &&& t == s.subrange(pos, p - 1)
            &&& s[p - 1] == '"'
            &&& plain_seq(t)
        }),
    decreases s.len() - pos,
{
    let (t, p) = parse_string(s, pos)->Some_0;
    if s[pos] == '"' {
        assert(t =~= s.subrange(pos, pos));
    } else {
        lemma_parse_string_sound(s, pos + 1);
        let (t2, _) = parse_string(s, pos + 1)->Some_0;
        assert(t =~= s.subrange(pos, p - 1));
        assert(forall|i: int| 0 <= i < t.len() ==> #[trigger] plain_char(t[i])) by {
            assert(forall|i: int| 0 <= i < t2.len() ==> #[trigger] plain_char(t2[i]));
            assert(t[0] == s[pos] && plain_char(s[pos]));
            assert(forall|i: int| 1 <= i < t.len() ==> t[i] == t2[i - 1]);
        }
    }
}

/// A region of plain characters that runs into a bad character or the end
/// of the text, with no closing quote, is rejected.
pub proof fn lemma_parse_string_none(s: Seq<char>, pos: int, j: int)
    requires
        0 <= pos <= j <= s.len(),
        forall|i: int| pos <= i < j ==> #[trigger] plain_char(s[i]),
        j == s.len() || (!plain_char(s[j]) && s[j] != '"'),
    ensures
        parse_string(s, pos) is None,
    decreases j - pos,
{
    if pos < j {
        assert(plain_char(s[pos]));
        lemma_parse_string_none(s, pos + 1, j);
    }
}

// ---------------------------------------------------------------------------
// Round trip: whatever the encoder writes, the reading functions accept and
// give back unchanged.
// ---------------------------------------------------------------------------

/// A slice of a region known to equal `e` equals the matching slice of `e`.
proof fn lemma_piece(s: Seq<char>, pos: int, e: Seq<char>, a: int, b: int)
    requires
        0 <= pos,
        pos + e.len() <= s.len(),
        s.subrange(pos, pos + e.len()) == e,
        0 <= a <= b <= e.len(),
    ensures
        s.subrange(pos + a, pos + b) == e.subrange(a, b),
{
    assert(s.subrange(pos + a, pos + b) =~= s.subrange(pos, pos + e.len()).subrange(a, b));
}

/// A character of a region known to equal `e` equals the matching character
/// of `e`.
proof fn lemma_char_at(s: Seq<char>, pos: int, e: Seq<char>, k: int)
    requires
        0 <= pos,
        pos + e.len() <= s.len(),
        s.subrange(pos, pos + e.len()) == e,
        0 <= k < e.len(),
    ensures
        s[pos + k] == e[k],
{
    assert(s[pos + k] == s.subrange(pos, pos + e.len())[k]);
}

/// A region holding a signed rendering followed by a non-digit is accepted
/// as that value.
proof fn lemma_parse_i64_complete(s: Seq<char>, pos: int, v: int)
    requires
        -0x7fff_ffff_ffff_ffff <= v <= 0x7fff_ffff_ffff_ffff,
        0 <= pos,
        pos + enc_i64(v).len() <= s.len(),
        s.subrange(pos, pos + enc_i64(v).len()) == enc_i64(v),
        pos + enc_i64(v).len() == s.len() || digit_of(s[pos + enc_i64(v).len()]) is None,
    ensures
        parse_i64(s, pos) == Some((v, pos + enc_i64(v).len())),
{
    let e = enc_i64(v);
    if v >= 0 {
        crate::digits::lemma_dec_digits_props(v as nat);
        lemma_char_at(s, pos, e, 0);
        assert(digit_of(dec_digits(v as nat)[0]) is Some);
        assert(s[pos] != '-');
        lemma_parse_u64_complete(s, pos, v as nat);
    } else {
        let m = (-v) as nat;
        crate::digits::lemma_dec_digits_props(m);
        reveal_strlit("-");
        lemma_char_at(s, pos, e, 0);
        assert(e[0] == '-');
        assert(s[pos] == '-');
        lemma_piece(s, pos, e, 1, e.len() as int);
        assert(e.subrange(1, e.len() as int) =~= dec_digits(m));
        lemma_parse_u64_complete(s, pos + 1, m);
    }
}

/// A region holding a tenths rendering is accepted as that value.
proof fn lemma_parse_tenths_complete(s: Seq<char>, pos: int, t: int)
    requires
        -0x7fff_ffff_ffff_ffff <= t <= 0x7fff_ffff_ffff_ffff,
        0 <= pos,
        pos + enc_tenths(t).len() <= s.len(),
        s.subrange(pos, pos + enc_tenths(t).len()) == enc_tenths(t),
    ensures
        parse_tenths(s, pos) == Some((t, pos + enc_tenths(t).len())),
{
    let e = enc_tenths(t);
    let mag = if t < 0 {
        -t
    } else {
        t
    };
    let dd = dec_digits((mag / 10) as nat);
    let sl: int = if t < 0 {
        1
    } else {
        0
    };
    reveal_strlit("-");
    reveal_strlit(".");
    crate::digits::lemma_dec_digits_props((mag / 10) as nat);
    crate::digits::lemma_digit_char_id(mag % 10, '0');
    assert(e.len() == sl + dd.len() + 2);
    let q = pos + sl;
    lemma_char_at(s, pos, e, 0);
    if t < 0 {
        assert(e[0] == '-');
        assert(s[pos] == '-');
    } else {
        assert(e[0] == dd[0]);
        assert(digit_of(dd[0]) is Some);
        assert(s[pos] != '-');
    }
    lemma_piece(s, pos, e, sl, sl + dd.len());
    assert(e.subrange(sl, sl + dd.len()) =~= dd);
    lemma_char_at(s, pos, e, sl + dd.len());
    assert(e[sl + dd.len()] == '.');
    assert(digit_of('.') is None);
    lemma_parse_u64_complete(s, q, (mag / 10) as nat);
    lemma_char_at(s, pos, e, sl + dd.len() + 1);
    assert(e[sl + dd.len() + 1] == char_of_digit(mag % 10));
    assert(digit_of(s[q + dd.len() + 1]) == Some(mag % 10));
    assert((mag / 10) * 10 + mag % 10 == mag);
    assert(q + dd.len() + 2 == pos + e.len());
}

/// A region holding an encoded condition observation is accepted as that
/// observation.
#[verifier::rlimit(100)]
proof fn lemma_parse_cond_complete(s: Seq<char>, pos: int, c: CondV)
    requires
        c.wf(),
        0 <= pos,
        pos + enc_cond(c).len() <= s.len(),
        s.subrange(pos, pos + enc_cond(c).len()) == enc_cond(c),
    ensures
        parse_cond(s, pos) == Some((c, pos + enc_cond(c).len())),
{
    let e = enc_cond(c);
    let t = e.len() as int;
    let l1 = "{\"Icon\":"@.len() as int;
    let n1 = enc_i64(c.icon).len() as int;
    let l2 = ",\"IconPhrase\":\""@.len() as int;
    let np = c.phrase.len() as int;
    reveal_strlit("\"");
    reveal_strlit("}");
    reveal_strlit(",\"IconPhrase\":\"");
    let p1 = pos + l1;
    let p2 = p1 + n1;
    let p3 = p2 + l2;
    let p4 = p3 + np + 1;
    assert(t == l1 + n1 + l2 + np + 1 + 1);
    lemma_piece(s, pos, e, 0, l1);
    assert(e.subrange(0, l1) =~= "{\"Icon\":"@);
    assert(parse_lit(s, pos, "{\"Icon\":"@) == Some(p1));
    lemma_piece(s, pos, e, l1, l1 + n1);
    assert(e.subrange(l1, l1 + n1) =~= enc_i64(c.icon));
    lemma_char_at(s, pos, e, l1 + n1);
    assert(e[l1 + n1] == ',');
    assert(digit_of(',') is None);
    lemma_parse_i64_complete(s, p1, c.icon);
    lemma_piece(s, pos, e, l1 + n1, l1 + n1 + l2);
    assert(e.subrange(l1 + n1, l1 + n1 + l2) =~= ",\"IconPhrase\":\""@);
    assert(parse_lit(s, p2, ",\"IconPhrase\":\""@) == Some(p3));
    lemma_piece(s, pos, e, l1 + n1 + l2, l1 + n1 + l2 + np);
    assert(e.subrange(l1 + n1 + l2, l1 + n1 + l2 + np) =~= c.phrase);
    assert forall|i: int| p3 <= i < p3 + np implies #[trigger] plain_char(s[i]) by {
        assert(s[i] == s.subrange(p3, p3 + np)[i - p3]);
        assert(plain_char(c.phrase[i - p3]));
    }
    lemma_char_at(s, pos, e, l1 + n1 + l2 + np);
    assert(e[l1 + n1 + l2 + np] == '"');
    lemma_parse_string_complete(s, p3, p3 + np);
    lemma_piece(s, pos, e, l1 + n1 + l2 + np + 1, t);
    assert(e.subrange(l1 + n1 + l2 + np + 1, t) =~= "}"@);
    assert(parse_lit(s, p4, "}"@) == Some(p4 + 1));
    assert(p4 + 1 == pos + t);
}

/// A region holding an encoded temperature bound is accepted as that bound.
#[verifier::rlimit(100)]
proof fn lemma_parse_tv_complete(s: Seq<char>, pos: int, v: TempValueV)
    requires
        v.wf(),
        0 <= pos,
        pos + enc_tv(v).len() <= s.len(),
        s.subrange(pos, pos + enc_tv(v).len()) == enc_tv(v),
    ensures
        parse_tv(s, pos) == Some((v, pos + enc_tv(v).len())),
{
    let e = enc_tv(v);
    let t = e.len() as int;
    let l1 = "{\"Value\":"@.len() as int;
    let n1 = enc_tenths(v.tenths).len() as int;
    let l2 = ",\"Unit\":\""@.len() as int;
    let nu = v.unit.len() as int;
    let l3 = ",\"UnitType\":"@.len() as int;
    let n2 = dec_digits(v.unit_type as nat).len() as int;
    reveal_strlit("\"");
    reveal_strlit("}");
    reveal_strlit(",\"Unit\":\"");
    let p1 = pos + l1;
    let p2 = p1 + n1;
    let p3 = p2 + l2;
    let p4 = p3 + nu + 1;
    let p5 = p4 + l3;
    let p6 = p5 + n2;
    assert(t == l1 + n1 + l2 + nu + 1 + l3 + n2 + 1);
    lemma_piece(s, pos, e, 0, l1);
    assert(e.subrange(0, l1) =~= "{\"Value\":"@);
    assert(parse_lit(s, pos, "{\"Value\":"@) == Some(p1));
    lemma_piece(s, pos, e, l1, l1 + n1);
    assert(e.subrange(l1, l1 + n1) =~= enc_tenths(v.tenths));
    lemma_parse_tenths_complete(s, p1, v.tenths);
    lemma_piece(s, pos, e, l1 + n1, l1 + n1 + l2);
    assert(e.subrange(l1 + n1, l1 + n1 + l2) =~= ",\"Unit\":\""@);
    assert(parse_lit(s, p2, ",\"Unit\":\""@) == Some(p3));
    lemma_piece(s, pos, e, l1 + n1 + l2, l1 + n1 + l2 + nu);
    assert(e.subrange(l1 + n1 + l2, l1 + n1 + l2 + nu) =~= v.unit);
    assert forall|i: int| p3 <= i < p3 + nu implies #[trigger] plain_char(s[i]) by {
        assert(s[i] == s.subrange(p3, p3 + nu)[i - p3]);
        assert(plain_char(v.unit[i - p3]));
    }
    lemma_char_at(s, pos, e, l1 + n1 + l2 + nu);
    assert(e[l1 + n1 + l2 + nu] == '"');
    lemma_parse_string_complete(s, p3, p3 + nu);
    lemma_piece(s, pos, e, l1 + n1 + l2 + nu + 1, l1 + n1 + l2 + nu + 1 + l3);
    assert(e.subrange(l1 + n1 + l2 + nu + 1, l1 + n1 + l2 + nu + 1 + l3) =~= ",\"UnitType\":"@);
    assert(parse_lit(s, p4, ",\"UnitType\":"@) == Some(p5));
    crate::digits::lemma_dec_digits_props(v.unit_type as nat);
    lemma_piece(s, pos, e, l1 + n1 + l2 + nu + 1 + l3, l1 + n1 + l2 + nu + 1 + l3 + n2);
    assert(e.subrange(l1 + n1 + l2 + nu + 1 + l3, l1 + n1 + l2 + nu + 1 + l3 + n2) =~= dec_digits(
        v.unit_type as nat,
    ));
    lemma_char_at(s, pos, e, l1 + n1 + l2 + nu + 1 + l3 + n2);
    assert(e[l1 + n1 + l2 + nu + 1 + l3 + n2] == '}');
    assert(digit_of('}') is None);
    lemma_parse_u64_complete(s, p5, v.unit_type as nat);
    lemma_piece(s, pos, e, l1 + n1 + l2 + nu + 1 + l3 + n2, t);
    assert(e.subrange(l1 + n1 + l2 + nu + 1 + l3 + n2, t) =~= "}"@);
    assert(parse_lit(s, p6, "}"@) == Some(p6 + 1));
    assert(p6 + 1 == pos + t);
}

/// A region holding an encoded daily forecast is accepted as that forecast.
#[verifier::rlimit(100)]
#[verifier::spinoff_prover]
proof fn lemma_parse_daily_complete(s: Seq<char>, pos: int, d: DailyV)
    requires
        d.wf(),
        0 <= pos,
        pos + enc_daily(d).len() <= s.len(),
        s.subrange(pos, pos + enc_daily(d).len()) == enc_daily(d),
    ensures
        parse_daily(s, pos) == Some((d, pos + enc_daily(d).len())),
{
    let e = enc_daily(d);
    let t = e.len() as int;
    let l1 = "{\"Date\":\""@.len() as int;
    let nd = d.date.len() as int;
    let l2 = ",\"Day\":"@.len() as int;
    let nc1 = enc_cond(d.day).len() as int;
    let l3 = ",\"Night\":"@.len() as int;
    let nc2 = enc_cond(d.night).len() as int;
    let l4 = ",\"Temperature\":{\"Minimum\":"@.len() as int;
    let nv1 = enc_tv(d.temperature.minimum).len() as int;
    let l5 = ",\"Maximum\":"@.len() as int;
    let nv2 = enc_tv(d.temperature.maximum).len() as int;
    let l6 = "},\"Link\":\""@.len() as int;
    let nl = d.link.len() as int;
    reveal_strlit("\"");
    reveal_strlit("}");
    let p1 = pos + l1;
    let p2 = p1 + nd + 1;
    let p3 = p2 + l2;
    let p4 = p3 + nc1;
    let p5 = p4 + l3;
    let p6 = p5 + nc2;
    let p7 = p6 + l4;
    let p8 = p7 + nv1;
    let p9 = p8 + l5;
    let p10 = p9 + nv2;
    let p11 = p10 + l6;
    let p12 = p11 + nl + 1;
    assert(t == l1 + nd + 1 + l2 + nc1 + l3 + nc2 + l4 + nv1 + l5 + nv2 + l6 + nl + 1 + 1);
    lemma_piece(s, pos, e, 0, l1);
    assert(e.subrange(0, l1) =~= "{\"Date\":\""@);
    assert(parse_lit(s, pos, "{\"Date\":\""@) == Some(p1));
    lemma_piece(s, pos, e, l1, l1 + nd);
    assert(e.subrange(l1, l1 + nd) =~= d.date);
    assert forall|i: int| p1 <= i < p1 + nd implies #[trigger] plain_char(s[i]) by {
        assert(s[i] == s.subrange(p1, p1 + nd)[i - p1]);
        assert(plain_char(d.date[i - p1]));
    }
    lemma_char_at(s, pos, e, l1 + nd);
    assert(e[l1 + nd] == '"');
    lemma_parse_string_complete(s, p1, p1 + nd);
    lemma_piece(s, pos, e, l1 + nd + 1, l1 + nd + 1 + l2);
    assert(e.subrange(l1 + nd + 1, l1 + nd + 1 + l2) =~= ",\"Day\":"@);
    assert(parse_lit(s, p2, ",\"Day\":"@) == Some(p3));
    lemma_piece(s, pos, e, p3 - pos, p4 - pos);
    assert(e.subrange(p3 - pos, p4 - pos) =~= enc_cond(d.day));
    lemma_parse_cond_complete(s, p3, d.day);
    lemma_piece(s, pos, e, p4 - pos, p5 - pos);
    assert(e.subrange(p4 - pos, p5 - pos) =~= ",\"Night\":"@);
    assert(parse_lit(s, p4, ",\"Night\":"@) == Some(p5));
    lemma_piece(s, pos, e, p5 - pos, p6 - pos);
    assert(e.subrange(p5 - pos, p6 - pos) =~= enc_cond(d.night));
    lemma_parse_cond_complete(s, p5, d.night);
    lemma_piece(s, pos, e, p6 - pos, p7 - pos);
    assert(e.subrange(p6 - pos, p7 - pos) =~= ",\"Temperature\":{\"Minimum\":"@);
    assert(parse_lit(s, p6, ",\"Temperature\":{\"Minimum\":"@) == Some(p7));
    lemma_piece(s, pos, e, p7 - pos, p8 - pos);
    assert(e.subrange(p7 - pos, p8 - pos) =~= enc_tv(d.temperature.minimum));
    lemma_parse_tv_complete(s, p7, d.temperature.minimum);
    lemma_piece(s, pos, e, p8 - pos, p9 - pos);
    assert(e.subrange(p8 - pos, p9 - pos) =~= ",\"Maximum\":"@);
    assert(parse_lit(s, p8, ",\"Maximum\":"@) == Some(p9));
    lemma_piece(s, pos, e, p9 - pos, p10 - pos);
    assert(e.subrange(p9 - pos, p10 - pos) =~= enc_tv(d.temperature.maximum));
    lemma_parse_tv_complete(s, p9, d.temperature.maximum);
    lemma_piece(s, pos, e, p10 - pos, p11 - pos);
    assert(e.subrange(p10 - pos, p11 - pos) =~= "},\"Link\":\""@);
    assert(parse_lit(s, p10, "},\"Link\":\""@) == Some(p11));
    lemma_piece(s, pos, e, p11 - pos, p11 - pos + nl);
    assert(e.subrange(p11 - pos, p11 - pos + nl) =~= d.link);
    assert forall|i: int| p11 <= i < p11 + nl implies #[trigger] plain_char(s[i]) by {
        assert(s[i] == s.subrange(p11, p11 + nl)[i - p11]);
        assert(plain_char(d.link[i - p11]));
    }
    lemma_char_at(s, pos, e, p11 - pos + nl);
    assert(e[p11 - pos + nl] == '"');
    lemma_parse_string_complete(s, p11, p11 + nl);
    lemma_piece(s, pos, e, p12 - pos, t);
    assert(e.subrange(p12 - pos, t) =~= "}"@);
    assert(parse_lit(s, p12, "}"@) == Some(p12 + 1));
    assert(p12 + 1 == pos + t);
}

/// Joining daily forecasts, seen from the front: the first one, a comma,
/// then the rest.
proof fn lemma_enc_dailies_unfold(ds: Seq<DailyV>)
    requires
        ds.len() >= 2,
    ensures
        enc_dailies(ds) == enc_daily(ds[0]) + ","@ + enc_dailies(ds.drop_first()),
    decreases ds.len(),
{
    let dl = ds.drop_last();
    let df = ds.drop_first();
    if ds.len() == 2 {
        assert(dl.len() == 1 && dl[0] == ds[0]);
        assert(df.len() == 1 && df[0] == ds[1]);
        assert(enc_dailies(dl) == enc_daily(ds[0]));
        assert(enc_dailies(df) == enc_daily(ds[1]));
        assert(ds.last() == ds[1]);
    } else {
        lemma_enc_dailies_unfold(dl);
        assert(dl.drop_first() =~= df.drop_last());
        assert(dl[0] == ds[0]);
        assert(df.last() == ds.last());
        assert(df.len() >= 2);
        assert(enc_dailies(df) == enc_dailies(df.drop_last()) + ","@ + enc_daily(df.last()));
        vstd::seq_lib::lemma_concat_associative(
            enc_daily(ds[0]),
            ","@,
            enc_dailies(df.drop_last()),
        );
        vstd::seq_lib::lemma_concat_associative(
            enc_daily(ds[0]) + ","@ + enc_dailies(df.drop_last()),
            ","@,
            enc_daily(ds.last()),
        );
        vstd::seq_lib::lemma_concat_associative(
            enc_daily(ds[0]),
            ","@,
            enc_dailies(df.drop_last()) + ","@ + enc_daily(ds.last()),
        );
        vstd::seq_lib::lemma_concat_associative(
            enc_daily(ds[0]) + ","@,
            enc_dailies(df.drop_last()),
            ","@ + enc_daily(ds.last()),
        );
        vstd::seq_lib::lemma_concat_associative(
            enc_dailies(df.drop_last()),
            ","@,
            enc_daily(ds.last()),
        );
        vstd::seq_lib::lemma_concat_associative(
            enc_daily(ds[0]) + ","@,
            enc_dailies(df.drop_last()) + ","@,
            enc_daily(ds.last()),
        );
        vstd::seq_lib::lemma_concat_associative(
            enc_daily(ds[0]) + ","@,
            enc_dailies(df.drop_last()),
            ","@,
        );
        assert(enc_dailies(ds) == enc_dailies(dl) + ","@ + enc_daily(ds.last()));
        assert(enc_dailies(dl) == enc_daily(ds[0]) + ","@ + enc_dailies(df.drop_last()));
    }
}

/// An encoded daily forecast is never empty.
proof fn lemma_enc_daily_len(d: DailyV)
    ensures
        enc_daily(d).len() >= 1,
{
    reveal_strlit("{\"Date\":\"");
}

/// The joined encoding is at least as long as the number of forecasts.
proof fn lemma_enc_dailies_len(ds: Seq<DailyV>)
    ensures
        enc_dailies(ds).len() >= ds.len(),
    decreases ds.len(),
{
    if ds.len() == 1 {
        lemma_enc_daily_len(ds[0]);
    } else if ds.len() > 1 {
        lemma_enc_dailies_len(ds.drop_last());
        lemma_enc_daily_len(ds.last());
        reveal_strlit(",");
    }
}

/// A region holding one-or-more encoded daily forecasts, not followed by a
/// comma, is accepted as exactly those forecasts.
#[verifier::rlimit(100)]
#[verifier::spinoff_prover]
proof fn lemma_parse_dailies_complete(s: Seq<char>, pos: int, ds: Seq<DailyV>, fuel: nat)
    requires
        ds.len() >= 1,
        forall|i: int| 0 <= i < ds.len() ==> (#[trigger] ds[i]).wf(),
        fuel >= ds.len(),
        0 <= pos,
        pos + enc_dailies(ds).len() <= s.len(),
        s.subrange(pos, pos + enc_dailies(ds).len()) == enc_dailies(ds),
        pos + enc_dailies(ds).len() == s.len() || s[pos + enc_dailies(ds).len()] != ',',
    ensures
        parse_dailies(s, pos, fuel) == Some((ds, pos + enc_dailies(ds).len())),
    decreases ds.len(),
{
    let e = enc_dailies(ds);
    if ds.len() == 1 {
        assert(e == enc_daily(ds[0]));
        lemma_parse_daily_complete(s, pos, ds[0]);
        assert(seq![ds[0]] =~= ds);
    } else {
        lemma_enc_dailies_unfold(ds);
        let d0 = enc_daily(ds[0]).len() as int;
        let rest = enc_dailies(ds.drop_first());
        reveal_strlit(",");
        lemma_piece(s, pos, e, 0, d0);
        assert(e.subrange(0, d0) =~= enc_daily(ds[0]));
        lemma_parse_daily_complete(s, pos, ds[0]);
        let p = pos + d0;
        lemma_char_at(s, pos, e, d0);
        assert(e[d0] == ',');
        assert(s[p] == ',');
        assert(forall|i: int|
            0 <= i < ds.drop_first().len() ==> (#[trigger] ds.drop_first()[i]).wf()) by {
            assert(forall|i: int|
                0 <= i < ds.drop_first().len() ==> ds.drop_first()[i] == ds[i + 1]);
        }
        lemma_piece(s, pos, e, d0 + 1, e.len() as int);
        assert(e.subrange(d0 + 1, e.len() as int) =~= rest);
        lemma_parse_dailies_complete(s, p + 1, ds.drop_first(), (fuel - 1) as nat);
        assert(seq![ds[0]] + ds.drop_first() =~= ds);
        assert(p + 1 + rest.len() == pos + e.len());
    }
}

/// The round-trip law: the artifact text of any well-formed record reads
/// back as exactly that record. Together with the contracts of
/// `encode_record` and `decode_record`, storing a record and loading it
/// again reconstructs an equal record.
#[verifier::rlimit(100)]
pub proof fn lemma_encode_parse_round_trip(rv: RecordV)
    requires
        rv.wf(),
    ensures
        parse_record(enc_record(rv)) == Some(rv),
{
    let s = enc_record(rv);
    let t = s.len() as int;
    let l1 = "{\"Headline\":{\"Text\":\""@.len() as int;
    let nh = rv.headline.len() as int;
    let l2 = "},\"DailyForecasts\":["@.len() as int;
    let nd = enc_dailies(rv.dailies).len() as int;
    reveal_strlit("\"");
    reveal_strlit("]}");
    let p1 = l1;
    let p2 = p1 + nh + 1;
    let p3 = p2 + l2;
    let p4 = p3 + nd;
    assert(t == l1 + nh + 1 + l2 + nd + 2);
    assert(s.subrange(0, t) =~= s);
    lemma_piece(s, 0, s, 0, l1);
    assert(s.subrange(0, l1) =~= "{\"Headline\":{\"Text\":\""@);
    assert(parse_lit(s, 0, "{\"Headline\":{\"Text\":\""@) == Some(p1));
    lemma_piece(s, 0, s, l1, l1 + nh);
    assert(s.subrange(l1, l1 + nh) =~= rv.headline);
    assert forall|i: int| p1 <= i < p1 + nh implies #[trigger] plain_char(s[i]) by {
        assert(s[i] == s.subrange(p1, p1 + nh)[i - p1]);
        assert(plain_char(rv.headline[i - p1]));
    }
    lemma_char_at(s, 0, s, l1 + nh);
    assert(s[l1 + nh] == '"');
    lemma_parse_string_complete(s, p1, p1 + nh);
    lemma_piece(s, 0, s, p2, p3);
    assert(s.subrange(p2, p3) =~= "},\"DailyForecasts\":["@);
    assert(parse_lit(s, p2, "},\"DailyForecasts\":["@) == Some(p3));
    lemma_enc_dailies_len(rv.dailies);
    lemma_piece(s, 0, s, p3, p4);
    assert(s.subrange(p3, p4) =~= enc_dailies(rv.dailies));
    lemma_char_at(s, 0, s, p4);
    assert(s[p4] == ']');
    lemma_parse_dailies_complete(s, p3, rv.dailies, s.len() as nat);
    lemma_piece(s, 0, s, p4, t);
    assert(s.subrange(p4, t) =~= "]}"@);
    assert(parse_lit(s, p4, "]}"@) == Some(p4 + 2));
    assert(p4 + 2 == t);
}

// ---------------------------------------------------------------------------
// Soundness: whatever the reading functions accept is exactly the encoding
// of what they give back.
// ---------------------------------------------------------------------------

/// What an accepted signed number means: exactly its signed rendering was
/// consumed.
proof fn lemma_parse_i64_sound(s: Seq<char>, pos: int)
    requires
        parse_i64(s, pos) is Some,
    ensures
        ({
            let (v, p) = parse_i64(s, pos)->Some_0;
            &&& 0 <= pos < p <= s.len()
            &&& s.subrange(pos, p) == enc_i64(v)
            &&& -0x7fff_ffff_ffff_ffff <= v <= 0x7fff_ffff_ffff_ffff
        }),
{
    let (v, p) = parse_i64(s, pos)->Some_0;
    if 0 <= pos < s.len() && s[pos] == '-' {
        lemma_parse_u64_sound(s, pos + 1);
        let (n, _) = parse_u64(s, pos + 1)->Some_0;
        reveal_strlit("-");
        assert("-"@ =~= seq!['-']);
        assert(s.subrange(pos, p) =~= seq!['-'] + s.subrange(pos + 1, p));
        assert(enc_i64(v) == "-"@ + dec_digits(n));
        assert(s.subrange(pos, p) =~= enc_i64(v));
    } else {
        lemma_parse_u64_sound(s, pos);
    }
}

/// What an accepted tenths number means: exactly its tenths rendering was
/// consumed.
proof fn lemma_parse_tenths_sound(s: Seq<char>, pos: int)
    requires
        parse_tenths(s, pos) is Some,
    ensures
        ({
            let (t, p) = parse_tenths(s, pos)->Some_0;
            &&& 0 <= pos < p <= s.len()
            &&& s.subrange(pos, p) == enc_tenths(t)
            &&& -0x7fff_ffff_ffff_ffff <= t <= 0x7fff_ffff_ffff_ffff
        }),
{
    let (t, p) = parse_tenths(s, pos)->Some_0;
    let neg = 0 <= pos < s.len() && s[pos] == '-';
    let q = if neg {
        pos + 1
    } else {
        pos
    };
    lemma_parse_u64_sound(s, q);
    let (ip, p1) = parse_u64(s, q)->Some_0;
    let d = digit_of(s[p1 + 1])->Some_0;
    crate::digits::lemma_digit_char_id(d, s[p1 + 1]);
    let mag = ip * 10 + d;
    assert(mag / 10 == ip && mag % 10 == d) by (nonlinear_arith)
        requires
            0 <= d < 10,
            0 <= ip,
            mag == ip * 10 + d,
    ;
    reveal_strlit("-");
    reveal_strlit(".");
    assert("-"@ =~= seq!['-']);
    assert("."@ =~= seq!['.']);
    assert(s.subrange(q, p1) == dec_digits(ip));
    if neg {
        assert(t == -mag);
        assert(enc_tenths(t) == "-"@ + dec_digits(ip) + "."@ + seq![char_of_digit(d)]);
        assert(s.subrange(pos, p) =~= seq!['-'] + s.subrange(q, p1) + seq!['.'] + seq![s[p1 + 1]]);
        assert(s.subrange(pos, p) =~= enc_tenths(t));
    } else {
        assert(t == mag);
        assert(enc_tenths(t) == Seq::<char>::empty() + dec_digits(ip) + "."@ + seq![
            char_of_digit(d),
        ]);
        assert(s.subrange(pos, p) =~= s.subrange(q, p1) + seq!['.'] + seq![s[p1 + 1]]);
        assert(s.subrange(pos, p) =~= enc_tenths(t));
    }
}

/// What an accepted condition observation means: exactly its encoding was
/// consumed, and it is well formed.
#[verifier::rlimit(100)]
proof fn lemma_parse_cond_sound(s: Seq<char>, pos: int)
    requires
        parse_cond(s, pos) is Some,
    ensures
        ({
            let (c, p) = parse_cond(s, pos)->Some_0;
            &&& 0 <= pos < p <= s.len()
            &&& s.subrange(pos, p) == enc_cond(c)
            &&& c.wf()
        }),
{
    let (c, p) = parse_cond(s, pos)->Some_0;
    let p1 = parse_lit(s, pos, "{\"Icon\":"@)->Some_0;
    let (icon, p2) = parse_i64(s, p1)->Some_0;
    let p3 = parse_lit(s, p2, ",\"IconPhrase\":\""@)->Some_0;
    let (t, p4) = parse_string(s, p3)->Some_0;
    lemma_parse_i64_sound(s, p1);
    lemma_parse_string_sound(s, p3);
    reveal_strlit("\"");
    assert(quote() =~= seq!['"']);
    assert(s.subrange(p3, p4) =~= t + quote());
    assert(s.subrange(pos, p2) =~= s.subrange(pos, p1) + s.subrange(p1, p2));
    assert(s.subrange(pos, p3) =~= s.subrange(pos, p2) + s.subrange(p2, p3));
    assert(s.subrange(pos, p4) =~= s.subrange(pos, p3) + s.subrange(p3, p4));
    assert(s.subrange(pos, p) =~= s.subrange(pos, p4) + s.subrange(p4, p));
    assert(s.subrange(pos, p3) == "{\"Icon\":"@ + enc_i64(icon) + ",\"IconPhrase\":\""@);
    assert(s.subrange(pos, p4) =~= "{\"Icon\":"@ + enc_i64(icon) + ",\"IconPhrase\":\""@
        + t + quote());
    assert(s.subrange(pos, p) == enc_cond(c));
}

/// What an accepted temperature bound means: exactly its encoding was
/// consumed, and it is well formed.
#[verifier::rlimit(100)]
proof fn lemma_parse_tv_sound(s: Seq<char>, pos: int)
    requires
        parse_tv(s, pos) is Some,
    ensures
        ({
            let (v, p) = parse_tv(s, pos)->Some_0;
            &&& 0 <= pos < p <= s.len()
            &&& s.subrange(pos, p) == enc_tv(v)
            &&& v.wf()
        }),
{
    let (v, p) = parse_tv(s, pos)->Some_0;
    let p1 = parse_lit(s, pos, "{\"Value\":"@)->Some_0;
    let (t, p2) = parse_tenths(s, p1)->Some_0;
    let p3 = parse_lit(s, p2, ",\"Unit\":\""@)->Some_0;
    let (u, p4) = parse_string(s, p3)->Some_0;
    let p5 = parse_lit(s, p4, ",\"UnitType\":"@)->Some_0;
    let (ut, p6) = parse_u64(s, p5)->Some_0;
    lemma_parse_tenths_sound(s, p1);
    lemma_parse_string_sound(s, p3);
    lemma_parse_u64_sound(s, p5);
    reveal_strlit("\"");
    assert(quote() =~= seq!['"']);
    assert(s.subrange(p3, p4) =~= u + quote());
    assert(s.subrange(pos, p2) =~= s.subrange(pos, p1) + s.subrange(p1, p2));
    assert(s.subrange(pos, p3) =~= s.subrange(pos, p2) + s.subrange(p2, p3));
    assert(s.subrange(pos, p4) =~= s.subrange(pos, p3) + s.subrange(p3, p4));
    assert(s.subrange(pos, p5) =~= s.subrange(pos, p4) + s.subrange(p4, p5));
    assert(s.subrange(pos, p6) =~= s.subrange(pos, p5) + s.subrange(p5, p6));
    assert(s.subrange(pos, p) =~= s.subrange(pos, p6) + s.subrange(p6, p));
    assert(s.subrange(pos, p2) == "{\"Value\":"@ + enc_tenths(t));
    assert(s.subrange(pos, p3) == "{\"Value\":"@ + enc_tenths(t) + ",\"Unit\":\""@);
    assert(s.subrange(pos, p4) =~= "{\"Value\":"@ + enc_tenths(t) + ",\"Unit\":\""@ + u
        + quote());
    assert(s.subrange(pos, p5) == "{\"Value\":"@ + enc_tenths(t) + ",\"Unit\":\""@ + u
        + quote() + ",\"UnitType\":"@);
    assert(s.subrange(pos, p6) == "{\"Value\":"@ + enc_tenths(t) + ",\"Unit\":\""@ + u
        + quote() + ",\"UnitType\":"@ + dec_digits(ut));
    assert(s.subrange(pos, p) == enc_tv(v));
}

/// What an accepted daily forecast means: exactly its encoding was consumed,
/// and it is well formed.
#[verifier::rlimit(100)]
#[verifier::spinoff_prover]
proof fn lemma_parse_daily_sound(s: Seq<char>, pos: int)
    requires
        parse_daily(s, pos) is Some,
    ensures
        ({
            let (d, p) = parse_daily(s, pos)->Some_0;
            &&& 0 <= pos < p <= s.len()
            &&& s.subrange(pos, p) == enc_daily(d)
            &&& d.wf()
        }),
{
    let (d, p) = parse_daily(s, pos)->Some_0;
    let p1 = parse_lit(s, pos, "{\"Date\":\""@)->Some_0;
    let (date, p2) = parse_string(s, p1)->Some_0;
    let p3 = parse_lit(s, p2, ",\"Day\":"@)->Some_0;
    let (day, p4) = parse_cond(s, p3)->Some_0;
    let p5 = parse_lit(s, p4, ",\"Night\":"@)->Some_0;
    let (night, p6) = parse_cond(s, p5)->Some_0;
    let p7 = parse_lit(s, p6, ",\"Temperature\":{\"Minimum\":"@)->Some_0;
    let (mn, p8) = parse_tv(s, p7)->Some_0;
    let p9 = parse_lit(s, p8, ",\"Maximum\":"@)->Some_0;
    let (mx, p10) = parse_tv(s, p9)->Some_0;
    let p11 = parse_lit(s, p10, "},\"Link\":\""@)->Some_0;
    let (link, p12) = parse_string(s, p11)->Some_0;
    lemma_parse_string_sound(s, p1);
    lemma_parse_cond_sound(s, p3);
    lemma_parse_cond_sound(s, p5);
    lemma_parse_tv_sound(s, p7);
    lemma_parse_tv_sound(s, p9);
    lemma_parse_string_sound(s, p11);
    reveal_strlit("\"");
    assert(quote() =~= seq!['"']);
    assert(s.subrange(p1, p2) =~= date + quote());
    assert(s.subrange(p11, p12) =~= link + quote());
    assert(s.subrange(pos, p2) =~= s.subrange(pos, p1) + s.subrange(p1, p2));
    assert(s.subrange(pos, p3) =~= s.subrange(pos, p2) + s.subrange(p2, p3));
    assert(s.subrange(pos, p4) =~= s.subrange(pos, p3) + s.subrange(p3, p4));
    assert(s.subrange(pos, p5) =~= s.subrange(pos, p4) + s.subrange(p4, p5));
    assert(s.subrange(pos, p6) =~= s.subrange(pos, p5) + s.subrange(p5, p6));
    assert(s.subrange(pos, p7) =~= s.subrange(pos, p6) + s.subrange(p6, p7));
    assert(s.subrange(pos, p8) =~= s.subrange(pos, p7) + s.subrange(p7, p8));
    assert(s.subrange(pos, p9) =~= s.subrange(pos, p8) + s.subrange(p8, p9));
    assert(s.subrange(pos, p10) =~= s.subrange(pos, p9) + s.subrange(p9, p10));
    assert(s.subrange(pos, p11) =~= s.subrange(pos, p10) + s.subrange(p10, p11));
    assert(s.subrange(pos, p12) =~= s.subrange(pos, p11) + s.subrange(p11, p12));
    assert(s.subrange(pos, p) =~= s.subrange(pos, p12) + s.subrange(p12, p));
    let e1 = "{\"Date\":\""@ + date + quote();
    assert(s.subrange(pos, p2) =~= e1);
    let e3 = e1 + ",\"Day\":"@ + enc_cond(day);
    assert(s.subrange(pos, p4) == e3);
    let e5 = e3 + ",\"Night\":"@ + enc_cond(night);
    assert(s.subrange(pos, p6) == e5);
    let e7 = e5 + ",\"Temperature\":{\"Minimum\":"@ + enc_tv(mn);
    assert(s.subrange(pos, p8) == e7);
    let e9 = e7 + ",\"Maximum\":"@ + enc_tv(mx);
    assert(s.subrange(pos, p10) == e9);
    let e11 = e9 + "},\"Link\":\""@ + link + quote();
    assert(s.subrange(pos, p12) =~= e11);
    assert(s.subrange(pos, p) == e11 + "}"@);
    assert(enc_daily(d) == e11 + "}"@);
}

/// What an accepted forecast list means: exactly its encoding was consumed,
/// and every forecast in it is well formed.
#[verifier::rlimit(100)]
#[verifier::spinoff_prover]
proof fn lemma_parse_dailies_sound(s: Seq<char>, pos: int, fuel: nat)
    requires
        parse_dailies(s, pos, fuel) is Some,
    ensures
        ({
            let (ds, p) = parse_dailies(s, pos, fuel)->Some_0;
            &&& 0 <= pos < p <= s.len()
            &&& ds.len() >= 1
            &&& forall|i: int| 0 <= i < ds.len() ==> (#[trigger] ds[i]).wf()
            &&& s.subrange(pos, p) == enc_dailies(ds)
        }),
    decreases fuel,
{
    let (ds, p) = parse_dailies(s, pos, fuel)->Some_0;
    let (d, p1) = parse_daily(s, pos)->Some_0;
    lemma_parse_daily_sound(s, pos);
    if p1 < s.len() && s[p1] == ',' {
        let (ds2, p2) = parse_dailies(s, p1 + 1, (fuel - 1) as nat)->Some_0;
        lemma_parse_dailies_sound(s, p1 + 1, (fuel - 1) as nat);
        assert(ds =~= seq![d] + ds2);
        assert(ds.len() >= 2);
        assert(ds[0] == d);
        assert(ds.drop_first() =~= ds2);
        lemma_enc_dailies_unfold(ds);
        reveal_strlit(",");
        assert(","@ =~= seq![',']);
        assert(s.subrange(pos, p) =~= s.subrange(pos, p1) + seq![','] + s.subrange(p1 + 1, p));
        assert(s.subrange(pos, p) == enc_daily(d) + ","@ + enc_dailies(ds2));
        assert(forall|i: int| 0 <= i < ds.len() ==> (#[trigger] ds[i]).wf()) by {
            assert(forall|i: int| 1 <= i < ds.len() ==> ds[i] == ds2[i - 1]);
            assert(forall|i: int| 0 <= i < ds2.len() ==> (#[trigger] ds2[i]).wf());
            assert(ds[0].wf());
        }
    } else {
        assert(ds =~= seq![d]);
        assert(enc_dailies(ds) == enc_daily(d));
        assert(forall|i: int| 0 <= i < ds.len() ==> (#[trigger] ds[i]).wf());
    }
}

/// The soundness law: an artifact text that reads back at all is exactly the
/// encoding of the well-formed record it reads back as — a malformed or
/// tampered artifact is never quietly served as data.
#[verifier::rlimit(100)]
pub proof fn lemma_parse_record_sound(s: Seq<char>)
    requires
        parse_record(s) is Some,
    ensures
        ({
            let rv = parse_record(s)->Some_0;
            &&& rv.wf()
            &&& s == enc_record(rv)
        }),
{
    let rv = parse_record(s)->Some_0;
    let p1 = parse_lit(s, 0, "{\"Headline\":{\"Text\":\""@)->Some_0;
    let (h, p2) = parse_string(s, p1)->Some_0;
    let p3 = parse_lit(s, p2, "},\"DailyForecasts\":["@)->Some_0;
    let (ds, p4) = parse_dailies(s, p3, s.len() as nat)->Some_0;
    let p5 = parse_lit(s, p4, "]}"@)->Some_0;
    lemma_parse_string_sound(s, p1);
    lemma_parse_dailies_sound(s, p3, s.len() as nat);
    reveal_strlit("\"");
    assert(quote() =~= seq!['"']);
    assert(s.subrange(p1, p2) =~= h + quote());
    assert(s.subrange(0, p2) =~= s.subrange(0, p1) + s.subrange(p1, p2));
    assert(s.subrange(0, p3) =~= s.subrange(0, p2) + s.subrange(p2, p3));
    assert(s.subrange(0, p4) =~= s.subrange(0, p3) + s.subrange(p3, p4));
    assert(s.subrange(0, p5) =~= s.subrange(0, p4) + s.subrange(p4, p5));
    let e2 = "{\"Headline\":{\"Text\":\""@ + h + quote();
    assert(s.subrange(0, p2) =~= e2);
    let e4 = e2 + "},\"DailyForecasts\":["@ + enc_dailies(ds);
    assert(s.subrange(0, p4) == e4);
    assert(s.subrange(0, p5) == e4 + "]}"@);
    assert(s.subrange(0, p5) =~= s);
    assert(enc_record(rv) == e4 + "]}"@);
}

// ---------------------------------------------------------------------------
// Encoder
// ---------------------------------------------------------------------------

/// Consumes the exact literal `lit` at `pos`, mirroring `parse_lit`.
fn read_lit(s: &str, len: usize, pos: usize, lit: &str) -> (r: Option<usize>)
    requires
        len == s@.len(),
        pos <= len,
    ensures
        match r {
            Some(p) => parse_lit(s@, pos as int, lit@) == Some(p as int) && pos <= p <= len,
            None => parse_lit(s@, pos as int, lit@) is None,
        },
{
    let lit_len = lit.unicode_len();
    if lit_len > len - pos {
        return None;
    }
    let mut i: usize = 0;
    while i < lit_len
        invariant
            len == s@.len(),
            lit_len == lit@.len(),
            pos + lit_len <= len,
            i <= lit_len,
            forall|j: int| 0 <= j < i ==> s@[pos + j] == lit@[j],
        decreases lit_len - i,
    {
        let a = s.get_char(pos + i);
        let b = lit.get_char(i);
        if a != b {
            proof {
                if parse_lit(s@, pos as int, lit@) is Some {
                    assert(s@.subrange(pos as int, pos + lit@.len())[i as int] == lit@[i as int]);
                }
            }
            return None;
        }
        i += 1;
    }
    proof {
        assert(s@.subrange(pos as int, pos + lit@.len()) =~= lit@);
    }
    Some(pos + lit_len)
}

/// Consumes a plain text field up to its closing quote, mirroring
/// `parse_string`.
fn read_string(s: &str, len: usize, pos: usize) -> (r: Option<(String, usize)>)
    requires
        len == s@.len(),
        pos <= len,
    ensures
        match r {
            Some(tp) => parse_string(s@, pos as int) == Some((tp.0@, tp.1 as int)) && pos < tp.1
                <= len,
            None => parse_string(s@, pos as int) is None,
        },
{
    let mut j: usize = pos;
    while j < len
        invariant
            len == s@.len(),
            pos <= j <= len,
            forall|i: int| pos <= i < j ==> #[trigger] plain_char(s@[i]),
        decreases len - j,
    {
        let c = s.get_char(j);
        if c == '"' {
            proof {
                lemma_parse_string_complete(s@, pos as int, j as int);
            }
            let t = s.substring_char(pos, j);
            return Some((String::from_str(t), j + 1));
        }
        if c == '\\' || (c as u32) < 32 {
            proof {
                assert(!plain_char(s@[j as int]));
                lemma_parse_string_none(s@, pos as int, j as int);
            }
            return None;
        }
        proof {
            assert(plain_char(s@[j as int]));
        }
        j += 1;
    }
    proof {
        lemma_parse_string_none(s@, pos as int, len as int);
    }
    None
}

/// Consumes a canonical unsigned number, mirroring `parse_u64`.
fn read_u64(s: &str, len: usize, pos: usize) -> (r: Option<(u64, usize)>)
    requires
        len == s@.len(),
        pos <= len,
    ensures
        match r {
            Some(np) => parse_u64(s@, pos as int) == Some((np.0 as nat, np.1 as int)) && pos < np.1
                <= len,
            None => parse_u64(s@, pos as int) is None,
        },
{
    if pos >= len {
        return None;
    }
    let c0 = s.get_char(pos);
    let d0 = match digit_value(c0) {
        Some(d) => d,
        None => {
            return None;
        },
    };
    if c0 == '0' {
        if pos + 1 < len {
            let c1 = s.get_char(pos + 1);
            if digit_value(c1).is_some() {
                return None;
            }
        }
        return Some((0, pos + 1));
    }
    let mut n: u64 = d0;
    let mut j: usize = pos + 1;
    proof {
        assert(0 * 10 + d0 as nat == d0 as nat);
        assert(parse_digits(s@, pos as int, 0) == parse_digits(s@, pos + 1, d0 as nat));
    }
    while j < len
        invariant
            len == s@.len(),
            pos < j <= len,
            s@[pos as int] == c0,
            digit_of(c0) is Some,
            c0 != '0',
            parse_digits(s@, pos as int, 0) == parse_digits(s@, j as int, n as nat),
        decreases len - j,
    {
        let c = s.get_char(j);
        match digit_value(c) {
            Some(d) => {
                if n > (0xffff_ffff_ffff_ffffu64 - d) / 10 {
                    proof {
                        let big: nat = n as nat * 10 + d as nat;
                        assert(parse_digits(s@, j as int, n as nat) == parse_digits(
                            s@,
                            j + 1,
                            big,
                        ));
                        lemma_parse_digits_bounds(s@, j + 1, big);
                        let m: nat = 0xffff_ffff_ffff_ffff;
                        assert(big > m) by (nonlinear_arith)
                            requires
                                n > (m - d as nat) / 10,
                                d < 10,
                                big == n * 10 + d,
                                m == 0xffff_ffff_ffff_ffff,
                        ;
                    }
                    return None;
                }
                proof {
                    let m: nat = 0xffff_ffff_ffff_ffff;
                    assert(n * 10 + d <= m) by (nonlinear_arith)
                        requires
                            n <= (m - d as nat) / 10,
                            d < 10,
                            m == 0xffff_ffff_ffff_ffff,
                    ;
                    assert(parse_digits(s@, j as int, n as nat) == parse_digits(
                        s@,
                        j + 1,
                        n as nat * 10 + d as nat,
                    ));
                }
                n = n * 10 + d;
                j += 1;
            },
            None => {
                proof {
                    assert(parse_digits(s@, j as int, n as nat) == ((n as nat, j as int)));
                }
                return Some((n, j));
            },
        }
    }
    proof {
        assert(parse_digits(s@, j as int, n as nat) == ((n as nat, j as int)));
    }
    Some((n, j))
}

/// Consumes a signed number, mirroring `parse_i64`.
fn read_i64(s: &str, len: usize, pos: usize) -> (r: Option<(i64, usize)>)
    requires
        len == s@.len(),
        pos <= len,
    ensures
        match r {
            Some(np) => parse_i64(s@, pos as int) == Some((np.0 as int, np.1 as int)) && pos < np.1
                <= len,
            None => parse_i64(s@, pos as int) is None,
        },
{
    if pos < len && s.get_char(pos) == '-' {
        match read_u64(s, len, pos + 1) {
            Some((n, p)) => {
                if 1 <= n && n <= 0x7fff_ffff_ffff_ffffu64 {
                    Some((-(n as i64), p))
                } else {
                    None
                }
            },
            None => None,
        }
    } else {
        match read_u64(s, len, pos) {
            Some((n, p)) => {
                if n <= 0x7fff_ffff_ffff_ffffu64 {
                    Some((n as i64, p))
                } else {
                    None
                }
            },
            None => None,
        }
    }
}

/// Consumes a decimal number with one fractional digit, mirroring
/// `parse_tenths`.
fn read_tenths(s: &str, len: usize, pos: usize) -> (r: Option<(i64, usize)>)
    requires
        len == s@.len(),
        pos <= len,
    ensures
        match r {
            Some(np) => parse_tenths(s@, pos as int) == Some((np.0 as int, np.1 as int)) && pos
                < np.1 <= len,
            None => parse_tenths(s@, pos as int) is None,
        },
{
    let neg = pos < len && s.get_char(pos) == '-';
    let q = if neg {
        pos + 1
    } else {
        pos
    };
    match read_u64(s, len, q) {
        Some((ip, p)) => {
            if p >= len || s.get_char(p) != '.' {
                return None;
            }
            if p + 1 >= len {
                return None;
            }
            let c2 = s.get_char(p + 1);
            let d = match digit_value(c2) {
                Some(d) => d,
                None => {
                    return None;
                },
            };
            let imax: u64 = 0x7fff_ffff_ffff_ffffu64;
            if ip > (imax - d) / 10 {
                proof {
                    assert(ip as nat * 10 + d as nat > imax as nat) by (nonlinear_arith)
                        requires
                            ip > (imax as nat - d as nat) / 10,
                            d < 10,
                            imax == 0x7fff_ffff_ffff_ffff,
                    ;
                }
                return None;
            }
            proof {
                assert(ip as nat * 10 + d as nat <= imax as nat) by (nonlinear_arith)
                    requires
                        ip <= (imax as nat - d as nat) / 10,
                        d < 10,
                        imax == 0x7fff_ffff_ffff_ffff,
                ;
            }
            let mag: u64 = ip * 10 + d;
            if neg {
                if mag == 0 {
                    None
                } else {
                    Some((-(mag as i64), p + 2))
                }
            } else {
                Some((mag as i64, p + 2))
            }
        },
        None => None,
    }
}

/// Consumes a condition observation object, mirroring `parse_cond`.
fn read_cond(s: &str, len: usize, pos: usize) -> (r: Option<(ConditionObservation, usize)>)
    requires
        len == s@.len(),
        pos <= len,
    ensures
        match r {
            Some(cp) => parse_cond(s@, pos as int) == Some((cp.0@, cp.1 as int)) && pos <= cp.1
                <= len,
            None => parse_cond(s@, pos as int) is None,
        },
{
    let p1 = match read_lit(s, len, pos, "{\"Icon\":") {
        Some(p) => p,
        None => {
            return None;
        },
    };
    let (icon, p2) = match read_i64(s, len, p1) {
        Some(x) => x,
        None => {
            return None;
        },
    };
    if !(-0x8000_0000i64 <= icon && icon <= 0x7fff_ffffi64) {
        return None;
    }
    let p3 = match read_lit(s, len, p2, ",\"IconPhrase\":\"") {
        Some(p) => p,
        None => {
            return None;
        },
    };
    let (t, p4) = match read_string(s, len, p3) {
        Some(x) => x,
        None => {
            return None;
        },
    };
    let p5 = match read_lit(s, len, p4, "}") {
        Some(p) => p,
        None => {
            return None;
        },
    };
    Some((ConditionObservation { icon: icon as i32, icon_phrase: t }, p5))
}

/// Consumes one temperature bound object, mirroring `parse_tv`.
fn read_tv(s: &str, len: usize, pos: usize) -> (r: Option<(TemperatureValue, usize)>)
    requires
        len == s@.len(),
        pos <= len,
    ensures
        match r {
            Some(vp) => parse_tv(s@, pos as int) == Some((vp.0@, vp.1 as int)) && pos <= vp.1
                <= len,
            None => parse_tv(s@, pos as int) is None,
        },
{
    let p1 = match read_lit(s, len, pos, "{\"Value\":") {
        Some(p) => p,
        None => {
            return None;
        },
    };
    let (t, p2) = match read_tenths(s, len, p1) {
        Some(x) => x,
        None => {
            return None;
        },
    };
    let p3 = match read_lit(s, len, p2, ",\"Unit\":\"") {
        Some(p) => p,
        None => {
            return None;
        },
    };
    let (u, p4) = match read_string(s, len, p3) {
        Some(x) => x,
        None => {
            return None;
        },
    };
    let p5 = match read_lit(s, len, p4, ",\"UnitType\":") {
        Some(p) => p,
        None => {
            return None;
        },
    };
    let (ut, p6) = match read_u64(s, len, p5) {
        Some(x) => x,
        None => {
            return None;
        },
    };
    if ut > 0xffff_ffffu64 {
        return None;
    }
    let p7 = match read_lit(s, len, p6, "}") {
        Some(p) => p,
        None => {
            return None;
        },
    };
    Some((TemperatureValue { value_tenths: t, unit: u, unit_type: ut as u32 }, p7))
}

/// Consumes one daily forecast object, mirroring `parse_daily`.
fn read_daily(s: &str, len: usize, pos: usize) -> (r: Option<(DailyForecast, usize)>)
    requires
        len == s@.len(),
        pos <= len,
    ensures
        match r {
            Some(dp) => parse_daily(s@, pos as int) == Some((dp.0@, dp.1 as int)) && pos <= dp.1
                <= len,
            None => parse_daily(s@, pos as int) is None,
        },
{
    let p1 = match read_lit(s, len, pos, "{\"Date\":\"") {
        Some(p) => p,
        None => {
            return None;
        },
    };
    let (date, p2) = match read_string(s, len, p1) {
        Some(x) => x,
        None => {
            return None;
        },
    };
    let p3 = match read_lit(s, len, p2, ",\"Day\":") {
        Some(p) => p,
        None => {
            return None;
        },
    };
    let (day, p4) = match read_cond(s, len, p3) {
        Some(x) => x,
        None => {
            return None;
        },
    };
    let p5 = match read_lit(s, len, p4, ",\"Night\":") {
        Some(p) => p,
        None => {
            return None;
        },
    };
    let (night, p6) = match read_cond(s, len, p5) {
        Some(x) => x,
        None => {
            return None;
        },
    };
    let p7 = match read_lit(s, len, p6, ",\"Temperature\":{\"Minimum\":") {
        Some(p) => p,
        None => {
            return None;
        },
    };
    let (mn, p8) = match read_tv(s, len, p7) {
        Some(x) => x,
        None => {
            return None;
        },
    };
    let p9 = match read_lit(s, len, p8, ",\"Maximum\":") {
        Some(p) => p,
        None => {
            return None;
        },
    };
    let (mx, p10) = match read_tv(s, len, p9) {
        Some(x) => x,
        None => {
            return None;
        },
    };
    let p11 = match read_lit(s, len, p10, "},\"Link\":\"") {
        Some(p) => p,
        None => {
            return None;
        },
    };
    let (link, p12) = match read_string(s, len, p11) {
        Some(x) => x,
        None => {
            return None;
        },
    };
    let p13 = match read_lit(s, len, p12, "}") {
        Some(p) => p,
        None => {
            return None;
        },
    };
    Some(
        (
            DailyForecast {
                date,
                day,
                night,
                temperature: Temperature { minimum: mn, maximum: mx },
                link,
            },
            p13,
        ),
    )
}

/// Consumes one-or-more daily forecast objects joined by commas, mirroring
/// `parse_dailies`.
fn read_dailies(s: &str, len: usize, pos: usize, fuel: usize) -> (r: Option<
    (Vec<DailyForecast>, usize),
>)
    requires
        len == s@.len(),
        pos <= len,
    ensures
        match r {
            Some(vp) => parse_dailies(s@, pos as int, fuel as nat) == Some(
                (dailies_view(vp.0@), vp.1 as int),
            ) && vp.1 <= len,
            None => parse_dailies(s@, pos as int, fuel as nat) is None,
        },
    decreases fuel,
{
    if fuel == 0 {
        return None;
    }
    let (d, p) = match read_daily(s, len, pos) {
        Some(x) => x,
        None => {
            return None;
        },
    };
    if p < len && s.get_char(p) == ',' {
        match read_dailies(s, len, p + 1, fuel - 1) {
            Some((mut v, p2)) => {
                let ghost tail = v@;
                v.insert(0, d);
                proof {
                    assert(dailies_view(v@) =~= seq![d@] + dailies_view(tail));
                }
                Some((v, p2))
            },
            None => None,
        }
    } else {
        let mut v: Vec<DailyForecast> = Vec::new();
        v.push(d);
        proof {
            assert(dailies_view(v@) =~= seq![d@]);
        }
        Some((v, p))
    }
}

/// Reads a whole artifact text back into a record. Succeeds exactly when the
/// text follows the artifact grammar, and then returns the well-formed
/// record whose encoding the text is — never a record the text does not
/// denote; otherwise reports a decode failure.
pub fn decode_record(s: &str) -> (r: Result<ForecastRecord, DecodeError>)
    ensures
        match r {
            Ok(rec) => parse_record(s@) == Some(rec@) && rec@.wf() && s@ == enc_record(rec@),
            Err(e) => parse_record(s@) is None,
        },
{
    let len = s.unicode_len();
    let p1 = match read_lit(s, len, 0, "{\"Headline\":{\"Text\":\"") {
        Some(p) => p,
        None => {
            return Err(DecodeError);
        },
    };
    let (h, p2) = match read_string(s, len, p1) {
        Some(x) => x,
        None => {
            return Err(DecodeError);
        },
    };
    let p3 = match read_lit(s, len, p2, "},\"DailyForecasts\":[") {
        Some(p) => p,
        None => {
            return Err(DecodeError);
        },
    };
    let (ds, p4) = match read_dailies(s, len, p3, len) {
        Some(x) => x,
        None => {
            return Err(DecodeError);
        },
    };
    let p5 = match read_lit(s, len, p4, "]}") {
        Some(p) => p,
        None => {
            return Err(DecodeError);
        },
    };
    if p5 != len {
        return Err(DecodeError);
    }
    let rec = ForecastRecord { headline: h, daily_forecasts: ds };
    proof {
        lemma_parse_record_sound(s@);
    }
    Ok(rec)
}

/// Appends a closing quote.
fn push_quote(out: &mut String)
    ensures
        final(out)@ == old(out)@ + quote(),
{
    out.append("\"");
}

/// Appends the signed rendering of `v`.
fn push_i64(out: &mut String, v: i64)
    requires
        v != -0x8000_0000_0000_0000i64,
    ensures
        final(out)@ == old(out)@ + enc_i64(v as int),
{
    if v < 0 {
        out.append("-");
        push_u64(out, (-v) as u64);
        proof {
            assert(final(out)@ =~= old(out)@ + enc_i64(v as int));
        }
    } else {
        push_u64(out, v as u64);
    }
}

/// Appends the tenths rendering of `t`.
fn push_tenths(out: &mut String, t: i64)
    requires
        t != -0x8000_0000_0000_0000i64,
    ensures
        final(out)@ == old(out)@ + enc_tenths(t as int),
{
    let mag: u64 = if t < 0 {
        (-t) as u64
    } else {
        t as u64
    };
    if t < 0 {
        out.append("-");
    }
    push_u64(out, mag / 10);
    out.append(".");
    push_digit(out, mag % 10);
    proof {
        assert(final(out)@ =~= old(out)@ + enc_tenths(t as int));
    }
}

/// Appends the serialized condition observation.
fn encode_cond(out: &mut String, c: &ConditionObservation)
    requires
        c@.wf(),
    ensures
        final(out)@ == old(out)@ + enc_cond(c@),
{
    out.append("{\"Icon\":");
    push_i64(out, c.icon as i64);
    out.append(",\"IconPhrase\":\"");
    out.append(c.icon_phrase.as_str());
    push_quote(out);
    out.append("}");
    proof {
        assert(final(out)@ =~= old(out)@ + enc_cond(c@));
    }
}

/// Appends the serialized temperature bound.
fn encode_tv(out: &mut String, v: &TemperatureValue)
    requires
        v@.wf(),
    ensures
        final(out)@ == old(out)@ + enc_tv(v@),
{
    out.append("{\"Value\":");
    push_tenths(out, v.value_tenths);
    out.append(",\"Unit\":\"");
    out.append(v.unit.as_str());
    push_quote(out);
    out.append(",\"UnitType\":");
    push_u64(out, v.unit_type as u64);
    out.append("}");
    proof {
        assert(final(out)@ =~= old(out)@ + enc_tv(v@));
    }
}

/// Appends the serialized daily forecast.
#[verifier::rlimit(50)]
fn encode_daily(out: &mut String, d: &DailyForecast)
    requires
        d@.wf(),
    ensures
        final(out)@ == old(out)@ + enc_daily(d@),
{
    out.append("{\"Date\":\"");
    out.append(d.date.as_str());
    push_quote(out);
    out.append(",\"Day\":");
    encode_cond(out, &d.day);
    out.append(",\"Night\":");
    encode_cond(out, &d.night);
    out.append(",\"Temperature\":{\"Minimum\":");
    encode_tv(out, &d.temperature.minimum);
    out.append(",\"Maximum\":");
    encode_tv(out, &d.temperature.maximum);
    out.append("},\"Link\":\"");
    out.append(d.link.as_str());
    push_quote(out);
    out.append("}");
    proof {
        assert(final(out)@ =~= old(out)@ + enc_daily(d@));
    }
}

/// Serializes a well-formed record to its one artifact text.
pub fn encode_record(r: &ForecastRecord) -> (out: String)
    requires
        r@.wf(),
    ensures
        out@ == enc_record(r@),
{
    let mut out = String::new();
    out.append("{\"Headline\":{\"Text\":\"");
    out.append(r.headline.as_str());
    push_quote(&mut out);
    out.append("},\"DailyForecasts\":[");
    let ghost pre: Seq<char> = out@;
    let ghost dv: Seq<DailyV> = dailies_view(r.daily_forecasts@);
    proof {
        assert(r@.dailies[0].wf());
        assert(r.daily_forecasts@[0]@ == dv[0]);
    }
    encode_daily(&mut out, &r.daily_forecasts[0]);
    proof {
        assert(dv.subrange(0, 1) =~= seq![dv[0]]);
        assert(out@ =~= pre + enc_dailies(dv.subrange(0, 1)));
    }
    let mut i: usize = 1;
    while i < r.daily_forecasts.len()
        invariant
            1 <= i <= r.daily_forecasts@.len(),
            dv == dailies_view(r.daily_forecasts@),
            r@.wf(),
            out@ == pre + enc_dailies(dv.subrange(0, i as int)),
        decreases r.daily_forecasts@.len() - i,
    {
        out.append(",");
        proof {
            assert(r@.dailies[i as int].wf());
            assert(r.daily_forecasts@[i as int]@ == dv[i as int]);
        }
        encode_daily(&mut out, &r.daily_forecasts[i]);
        proof {
            let ghost part = dv.subrange(0, i + 1);
            assert(part.drop_last() =~= dv.subrange(0, i as int));
            assert(part.last() == dv[i as int]);
            assert(out@ =~= pre + enc_dailies(dv.subrange(0, i + 1)));
        }
        i += 1;
    }
    out.append("]}");
    proof {
        assert(dv.subrange(0, dv.len() as int) =~= dv);
        assert(out@ =~= enc_record(r@));
    }
    out
}

} // verus!
