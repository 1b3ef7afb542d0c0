//! Decimal and base-36 numerals: spec-level digit strings, verified
//! formatting of unsigned integers, and verified parsing with the same
//! acceptance rules as `str::parse` on unsigned types (an optional leading
//! `+`, then one or more decimal digits, value in range).

use vstd::prelude::*;

verus! {

/// The decimal digit character for `d < 10`.
pub open spec fn digit_char(d: nat) -> char {
    ((48 + d) as u32) as char
}

/// The base-36 digit character for `d < 36`: `0`-`9` then `a`-`z`.
pub open spec fn b36_char(d: nat) -> char {
    if d < 10 {
        ((48 + d) as u32) as char
    } else {
        ((87 + d) as u32) as char
    }
}

/// The decimal numeral of `n`, most significant digit first, no sign and no
/// leading zero (except for `n == 0` itself).
pub open spec fn dec_str(n: nat) -> Seq<char>
    decreases n,
{
    if n < 10 {
        seq![digit_char(n)]
    } else {
        dec_str(n / 10).push(digit_char(n % 10))
    }
}

/// The base-36 numeral of `n`, most significant digit first.
pub open spec fn b36_str(n: nat) -> Seq<char>
    decreases n,
{
    if n < 36 {
        seq![b36_char(n)]
    } else {
        b36_str(n / 36).push(b36_char(n % 36))
    }
}

/// Is `c` a decimal digit?
pub open spec fn is_digit(c: char) -> bool {
    48 <= c as u32 && c as u32 <= 57
}

/// The value of the decimal digit `c`.
pub open spec fn digit_val(c: char) -> nat {
    (c as u32 - 48) as nat
}

/// Are all characters of `s` decimal digits?
pub open spec fn all_digits(s: Seq<char>) -> bool {
    forall|i: int| 0 <= i < s.len() ==> is_digit(s[i])
}

/// The value of the digit string `s` read as a decimal numeral.
pub open spec fn dec_val(s: Seq<char>) -> nat
    decreases s.len(),
{
    if s.len() == 0 {
        0
    } else {
        dec_val(s.drop_last()) * 10 + digit_val(s.last())
    }
}

/// The digits of `s` after an optional leading plus sign.
pub open spec fn uint_body(s: Seq<char>) -> Seq<char> {
    if s.len() > 0 && s[0] == '+' {
        s.skip(1)
    } else {
        s
    }
}

/// Does `s` have the shape of an unsigned numeral (`str::parse` on an
/// unsigned type accepts it, range aside)?
pub open spec fn uint_shape(s: Seq<char>) -> bool {
    uint_body(s).len() > 0 && all_digits(uint_body(s))
}

/// The numeric value `str::parse` would see in `s`, range aside.
pub open spec fn uint_val(s: Seq<char>) -> nat {
    dec_val(uint_body(s))
}

/// A digit string's value only grows as digits are appended.
pub proof fn lemma_dec_val_prefix(s: Seq<char>, i: int)
    requires
        0 <= i <= s.len(),
    ensures
        dec_val(s.take(i)) <= dec_val(s),
    decreases s.len() - i,
{
    if i < s.len() {
        lemma_dec_val_prefix(s, i + 1);
        assert(s.take(i + 1).drop_last() =~= s.take(i));
        assert(dec_val(s.take(i + 1)) == dec_val(s.take(i)) * 10 + digit_val(s.take(i + 1).last()));
        assert(dec_val(s.take(i)) <= dec_val(s.take(i)) * 10) by (nonlinear_arith);
    } else {
        assert(s.take(i) =~= s);
    }
}

/// The decimal digit `d < 10` as a string slice.
pub fn digit_text(d: u8) -> (r: &'static str)
    requires
        d < 10,
    ensures
        r@ == seq![digit_char(d as nat)],
{
    match d {
        0 => {
            proof {
                reveal_strlit("0");
            }
            "0"
        },
        1 => {
            proof {
                reveal_strlit("1");
            }
            "1"
        },
        2 => {
            proof {
                reveal_strlit("2");
            }
            "2"
        },
        3 => {
            proof {
                reveal_strlit("3");
            }
            "3"
        },
        4 => {
            proof {
                reveal_strlit("4");
            }
            "4"
        },
        5 => {
            proof {
                reveal_strlit("5");
            }
            "5"
        },
        6 => {
            proof {
                reveal_strlit("6");
            }
            "6"
        },
        7 => {
            proof {
                reveal_strlit("7");
            }
            "7"
        },
        8 => {
            proof {
                reveal_strlit("8");
            }
            "8"
        },
        _ => {
            proof {
                reveal_strlit("9");
            }
            "9"
        },
    }
}

/// The base-36 digit `d < 36` as a string slice.
pub fn b36_text(d: u32) -> (r: &'static str)
    requires
        d < 36,
    ensures
        r@ == seq![b36_char(d as nat)],
{
    if d < 10 {
        digit_text(d as u8)
    } else {
        match d {
            10 => {
                proof {
                    reveal_strlit("a");
                }
                "a"
            },
            11 => {
                proof {
                    reveal_strlit("b");
                }
                "b"
            },
            12 => {
                proof {
                    reveal_strlit("c");
                }
                "c"
            },
            13 => {
                proof {
                    reveal_strlit("d");
                }
                "d"
            },
            14 => {
                proof {
                    reveal_strlit("e");
                }
                "e"
            },
            15 => {
                proof {
                    reveal_strlit("f");
                }
                "f"
            },
            16 => {
                proof {
                    reveal_strlit("g");
                }
                "g"
            },
            17 => {
                proof {
                    reveal_strlit("h");
                }
                "h"
            },
            18 => {
                proof {
                    reveal_strlit("i");
                }
                "i"
            },
            19 => {
                proof {
                    reveal_strlit("j");
                }
                "j"
            },
            20 => {
                proof {
                    reveal_strlit("k");
                }
                "k"
            },
            21 => {
                proof {
                    reveal_strlit("l");
                }
                "l"
            },
            22 => {
                proof {
                    reveal_strlit("m");
                }
                "m"
            },
            23 => {
                proof {
                    reveal_strlit("n");
                }
                "n"
            },
            24 => {
                proof {
                    reveal_strlit("o");
                }
                "o"
            },
            25 => {
                proof {
                    reveal_strlit("p");
                }
                "p"
            },
            26 => {
                proof {
                    reveal_strlit("q");
                }
                "q"
            },
            27 => {
                proof {
                    reveal_strlit("r");
                }
                "r"
            },
            28 => {
                proof {
                    reveal_strlit("s");
                }
                "s"
            },
            29 => {
                proof {
                    reveal_strlit("t");
                }
                "t"
            },
            30 => {
                proof {
                    reveal_strlit("u");
                }
                "u"
            },
            31 => {
                proof {
                    reveal_strlit("v");
                }
                "v"
            },
            32 => {
                proof {
                    reveal_strlit("w");
                }
                "w"
            },
            33 => {
                proof {
                    reveal_strlit("x");
                }
                "x"
            },
            34 => {
                proof {
                    reveal_strlit("y");
                }
                "y"
            },
            _ => {
                proof {
                    reveal_strlit("z");
                }
                "z"
            },
        }
    }
}

/// The reversed digit list `ds` (least significant first) written out most
/// significant first, one character per digit, in base `b`'s characters.
pub open spec fn digs_text(ds: Seq<u32>, base36: bool) -> Seq<char>
    decreases ds.len(),
{
    if ds.len() == 0 {
        seq![]
    } else if base36 {
        seq![b36_char(ds.last() as nat)] + digs_text(ds.drop_last(), base36)
    } else {
        seq![digit_char(ds.last() as nat)] + digs_text(ds.drop_last(), base36)
    }
}

/// `digs_text` pointwise: character `k` comes from digit `len - 1 - k`.
pub proof fn lemma_digs_text(ds: Seq<u32>, base36: bool)
    ensures
        digs_text(ds, base36).len() == ds.len(),
        forall|k: int|
            0 <= k < ds.len() ==> digs_text(ds, base36)[k] == (if base36 {
                b36_char(ds[ds.len() - 1 - k] as nat)
            } else {
                digit_char(ds[ds.len() - 1 - k] as nat)
            }),
    decreases ds.len(),
{
    if ds.len() > 0 {
        lemma_digs_text(ds.drop_last(), base36);
    }
}

/// The decimal numeral of a 64-bit value.
pub fn u64_text(n: u64) -> (r: String)
    ensures
        r@ == dec_str(n as nat),
{
    let mut digs: Vec<u32> = Vec::new();
    let mut rem: u64 = n;
    proof {
        assert(dec_str(n as nat) + digs_text(digs@, false) =~= dec_str(n as nat));
    }
    loop
        invariant_except_break
            forall|k: int| 0 <= k < digs@.len() ==> digs@[k] < 10,
            rem > 0 ==> dec_str(n as nat) == dec_str(rem as nat) + digs_text(digs@, false),
            rem == 0 ==> n == 0 && digs@.len() == 0,
        ensures
            digs@.len() > 0,
            dec_str(n as nat) == digs_text(digs@, false),
            forall|k: int| 0 <= k < digs@.len() ==> digs@[k] < 10,
        decreases rem, (if digs@.len() == 0 { 1int } else { 0int }),
    {
        let ghost olddigs = digs@;
        let ghost oldrem = rem;
        let d: u32 = (rem % 10) as u32;
        digs.push(d);
        rem = rem / 10;
        proof {
            assert(digs@.drop_last() =~= olddigs);
            assert(digs_text(digs@, false) == seq![digit_char(d as nat)] + digs_text(
                olddigs,
                false,
            ));
            if oldrem >= 10 {
                assert(dec_str(oldrem as nat) == dec_str((oldrem / 10) as nat).push(
                    digit_char((oldrem % 10) as nat),
                ));
                assert(dec_str((oldrem / 10) as nat).push(digit_char(d as nat)) + digs_text(
                    olddigs,
                    false,
                ) =~= dec_str((oldrem / 10) as nat) + (seq![digit_char(d as nat)] + digs_text(
                    olddigs,
                    false,
                )));
            } else if oldrem > 0 {
                assert(dec_str(oldrem as nat) == seq![digit_char(oldrem as nat)]);
                assert(dec_str(oldrem as nat) + digs_text(olddigs, false) =~= seq![
                    digit_char(d as nat),
                ] + digs_text(olddigs, false));
            } else {
                assert(n == 0);
                assert(digs_text(digs@, false) =~= dec_str(0));
            }
        }
        if rem == 0 {
            break;
        }
    }
    let ghost ds = digs@;
    let mut out = String::new();
    let mut j: usize = digs.len();
    proof {
        lemma_digs_text(ds, false);
    }
    while j > 0
        invariant
            ds == digs@,
            j <= ds.len(),
            out@.len() == ds.len() - j,
            forall|k: int|
                0 <= k < out@.len() ==> out@[k] == digit_char(ds[ds.len() - 1 - k] as nat),
            forall|k: int| 0 <= k < ds.len() ==> ds[k] < 10,
        decreases j,
    {
        out.append(digit_text(digs[j - 1] as u8));
        j = j - 1;
    }
    proof {
        lemma_digs_text(ds, false);
        assert(out@ =~= digs_text(ds, false));
    }
    out
}

/// The decimal numeral of an 8-bit value.
pub fn u8_text(n: u8) -> (r: String)
    ensures
        r@ == dec_str(n as nat),
{
    u64_text(n as u64)
}

/// The base-36 numeral of `x`, lowercase, as the identifier allocator
/// writes identifiers.
pub fn base36_text(x: u64) -> (r: String)
    ensures
        r@ == b36_str(x as nat),
{
    let mut digs: Vec<u32> = Vec::new();
    let mut rem: u64 = x;
    proof {
        assert(b36_str(x as nat) + digs_text(digs@, true) =~= b36_str(x as nat));
    }
    loop
        invariant_except_break
            forall|k: int| 0 <= k < digs@.len() ==> digs@[k] < 36,
            rem > 0 ==> b36_str(x as nat) == b36_str(rem as nat) + digs_text(digs@, true),
            rem == 0 ==> x == 0 && digs@.len() == 0,
        ensures
            digs@.len() > 0,
            b36_str(x as nat) == digs_text(digs@, true),
            forall|k: int| 0 <= k < digs@.len() ==> digs@[k] < 36,
        decreases rem, (if digs@.len() == 0 { 1int } else { 0int }),
    {
        let ghost olddigs = digs@;
        let ghost oldrem = rem;
        let d: u32 = (rem % 36) as u32;
        digs.push(d);
        rem = rem / 36;
        proof {
            assert(digs@.drop_last() =~= olddigs);
            assert(digs_text(digs@, true) == seq![b36_char(d as nat)] + digs_text(olddigs, true));
            if oldrem >= 36 {
                assert(b36_str(oldrem as nat) == b36_str((oldrem / 36) as nat).push(
                    b36_char((oldrem % 36) as nat),
                ));
                assert(b36_str((oldrem / 36) as nat).push(b36_char(d as nat)) + digs_text(
                    olddigs,
                    true,
                ) =~= b36_str((oldrem / 36) as nat) + (seq![b36_char(d as nat)] + digs_text(
                    olddigs,
                    true,
                )));
            } else if oldrem > 0 {
                assert(b36_str(oldrem as nat) == seq![b36_char(oldrem as nat)]);
                assert(b36_str(oldrem as nat) + digs_text(olddigs, true) =~= seq![
                    b36_char(d as nat),
                ] + digs_text(olddigs, true));
            } else {
                assert(x == 0);
                assert(digs_text(digs@, true) =~= b36_str(0));
            }
        }
        if rem == 0 {
            break;
        }
    }
    let ghost ds = digs@;
    let mut out = String::new();
    let mut j: usize = digs.len();
    proof {
        lemma_digs_text(ds, true);
    }
    while j > 0
        invariant
            ds == digs@,
            j <= ds.len(),
            out@.len() == ds.len() - j,
            forall|k: int| 0 <= k < out@.len() ==> out@[k] == b36_char(ds[ds.len() - 1 - k] as nat),
            forall|k: int| 0 <= k < ds.len() ==> ds[k] < 36,
        decreases j,
    {
        out.append(b36_text(digs[j - 1]));
        j = j - 1;
    }
    proof {
        lemma_digs_text(ds, true);
        assert(out@ =~= digs_text(ds, true));
    }
    out
}

/// `str::parse::<u64>` on `s`: the value when `s` is an unsigned numeral in
/// range, and nothing otherwise.
pub fn parse_u64(s: &str) -> (r: Option<u64>)
    ensures
        r == (if uint_shape(s@) && uint_val(s@) <= u64::MAX {
            Some(uint_val(s@) as u64)
        } else {
            None::<u64>
        }),
{
    let n = s.unicode_len();
    let start: usize = if n > 0 && s.get_char(0) == '+' {
        1
    } else {
        0
    };
    let ghost body = uint_body(s@);
    proof {
        assert(body =~= s@.skip(start as int));
    }
    if start == n {
        return None;
    }
    let mut acc: u128 = 0;
    let mut i: usize = start;
    proof {
        assert(body.take(0) =~= Seq::<char>::empty());
    }
    while i < n
        invariant
            s@.len() == n,
            start <= i <= n,
            start <= 1,
            n > start,
            body == uint_body(s@),
            body == s@.skip(start as int),
            body.len() == n - start,
            forall|j: int| 0 <= j < i - start ==> is_digit(body[j]),
            acc == dec_val(body.take(i - start)),
            acc <= u64::MAX,
        decreases n - i,
    {
        let c = s.get_char(i);
        proof {
            assert(body[i - start] == s@[i as int]);
        }
        let cv = c as u32;
        if !(48 <= cv && cv <= 57) {
            proof {
                assert(!uint_shape(s@)) by {
                    if uint_shape(s@) {
                        assert(is_digit(body[i - start]));
                    }
                }
            }
            return None;
        }
        proof {
            assert(body.take(i - start + 1).drop_last() =~= body.take(i - start));
            assert(body.take(i - start + 1).last() == body[i - start]);
        }
        acc = acc * 10 + ((cv - 48) as u128);
        if acc > u64::MAX as u128 {
            proof {
                lemma_dec_val_prefix(body, i - start + 1);
            }
            return None;
        }
        i = i + 1;
    }
    proof {
        assert(body.take(n - start) =~= body);
        assert(uint_shape(s@));
    }
    Some(acc as u64)
}

/// `str::parse::<u8>` on `s`.
pub fn parse_u8(s: &str) -> (r: Option<u8>)
    ensures
        r == (if uint_shape(s@) && uint_val(s@) <= u8::MAX {
            Some(uint_val(s@) as u8)
        } else {
            None::<u8>
        }),
{
    match parse_u64(s) {
        Some(v) => if v <= 255 {
            Some(v as u8)
        } else {
            None
        },
        None => None,
    }
}

} // verus!
