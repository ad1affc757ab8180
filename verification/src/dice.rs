//! The dice command's little expression language: `XdY` followed by any
//! number of `+n`, `-n`, `*n`, `/n` operations (`--n` subtracts a negative
//! operand).  Only the parsing lives here; rolling uses a random source
//! and stays outside the library, which receives the drawn values.

use vstd::prelude::*;

verus! {

/// One arithmetic operation appended to a dice expression.
#[derive(Debug, Clone, Copy, PartialEq, Eq, Structural)]
pub enum Operator {
    Add(i32),
    Subtract(i32),
    Multiply(i32),
    Divide(i32),
}

/// The four operator characters.
pub open spec fn is_op_char(c: char) -> bool {
    c == '+' || c == '-' || c == '*' || c == '/'
}

/// An ascii decimal digit.
pub open spec fn is_digit(c: char) -> bool {
    48 <= c as int <= 57
}

/// Numeric value of a sequence of decimal digits, most significant first.
pub open spec fn digits_val(s: Seq<char>) -> int
    decreases s.len(),
{
    if s.len() == 0 {
        0
    } else {
        digits_val(s.drop_last()) * 10 + (s.last() as int - 48)
    }
}

/// Count of leading decimal digits of `s`.
pub open spec fn digits_len(s: Seq<char>) -> int
    decreases s.len(),
{
    if s.len() == 0 || !is_digit(s[0]) {
        0
    } else {
        1 + digits_len(s.drop_first())
    }
}

/// Index of the first operator character of `s`, or its length when there
/// is none: where the dice part ends and the operations begin.
pub open spec fn dice_split_idx(s: Seq<char>) -> int
    decreases s.len(),
{
    if s.len() == 0 {
        0
    } else if is_op_char(s[0]) {
        0
    } else {
        1 + dice_split_idx(s.drop_first())
    }
}

/// Operator built from its character and its operand.
pub open spec fn mk_op(c: char, v: int) -> Operator
    recommends
        is_op_char(c),
        i32::MIN <= v <= i32::MAX,
{
    if c == '+' {
        Operator::Add(v as i32)
    } else if c == '-' {
        Operator::Subtract(v as i32)
    } else if c == '*' {
        Operator::Multiply(v as i32)
    } else {
        Operator::Divide(v as i32)
    }
}

/// The operations read from the tail of a dice expression by one forward
/// scan: each operator character takes the digits that follow it as its
/// operand (`--` makes the operand negative), and is dropped when no
/// digits follow or the operand does not fit an `i32`; every other
/// character is skipped.
pub open spec fn parsed_ops(s: Seq<char>) -> Seq<Operator>
    decreases s.len(),
    via parsed_ops_decreases
{
    if s.len() == 0 {
        Seq::empty()
    } else if !is_op_char(s[0]) {
        parsed_ops(s.drop_first())
    } else {
        let c = s[0];
        let neg = c == '-' && s.len() >= 2 && s[1] == '-';
        let rest = if neg {
            s.skip(2)
        } else {
            s.skip(1)
        };
        let dlen = digits_len(rest);
        let v0 = digits_val(rest.take(dlen));
        let v = if neg {
            -v0
        } else {
            v0
        };
        let after = rest.skip(dlen);
        if dlen > 0 && i32::MIN <= v <= i32::MAX {
            seq![mk_op(c, v)] + parsed_ops(after)
        } else {
            parsed_ops(after)
        }
    }
}

#[via_fn]
proof fn parsed_ops_decreases(s: Seq<char>) {
    if s.len() > 0 && is_op_char(s[0]) {
        let neg = s[0] == '-' && s.len() >= 2 && s[1] == '-';
        let rest = if neg {
            s.skip(2)
        } else {
            s.skip(1)
        };
        lemma_digits_len(rest);
    }
}

/// What `digits_len` returns: the length of the longest digit prefix.
pub proof fn lemma_digits_len(s: Seq<char>)
    ensures
        0 <= digits_len(s) <= s.len(),
        digits_len(s) < s.len() ==> !is_digit(s[digits_len(s)]),
        forall|j: int| 0 <= j < digits_len(s) ==> is_digit(s[j]),
    decreases s.len(),
{
    if s.len() > 0 && is_digit(s[0]) {
        lemma_digits_len(s.drop_first());
        assert forall|j: int| 0 <= j < digits_len(s) implies is_digit(s[j]) by {
            if j > 0 {
                assert(is_digit(s.drop_first()[j - 1]));
            }
        }
        if digits_len(s) < s.len() {
            assert(s.drop_first()[digits_len(s) - 1] == s[digits_len(s)]);
        }
    }
}

/// What `dice_split_idx` returns: the index of the first operator
/// character, or the length when there is none.
pub proof fn lemma_dice_split_idx(s: Seq<char>)
    ensures
        0 <= dice_split_idx(s) <= s.len(),
        dice_split_idx(s) < s.len() ==> is_op_char(s[dice_split_idx(s)]),
        forall|j: int| 0 <= j < dice_split_idx(s) ==> !is_op_char(s[j]),
    decreases s.len(),
{
    if s.len() > 0 && !is_op_char(s[0]) {
        lemma_dice_split_idx(s.drop_first());
        assert forall|j: int| 0 <= j < dice_split_idx(s) implies !is_op_char(s[j]) by {
            if j > 0 {
                assert(!is_op_char(s.drop_first()[j - 1]));
            }
        }
        if dice_split_idx(s) < s.len() {
            assert(s.drop_first()[dice_split_idx(s) - 1] == s[dice_split_idx(s)]);
        }
    }
}

/// A sequence of digits has a non-negative value.
pub proof fn lemma_digits_val_nonneg(s: Seq<char>)
    requires
        forall|j: int| 0 <= j < s.len() ==> is_digit(s[j]),
    ensures
        digits_val(s) >= 0,
    decreases s.len(),
{
    if s.len() > 0 {
        lemma_digits_val_nonneg(s.drop_last());
    }
}

/// Is `c` one of the four operator characters?
fn op_char(c: char) -> (b: bool)
    ensures
        b == is_op_char(c),
{
    c == '+' || c == '-' || c == '*' || c == '/'
}

/// Is `c` an ascii decimal digit?
fn digit_char(c: char) -> (b: bool)
    ensures
        b == is_digit(c),
{
    let u = c as u32;
    48 <= u && u <= 57
}

/// Split a dice expression into the `XdY` dice part and the operations
/// that follow it, if any.
pub fn parse_dice_expression<'a>(input: &'a str) -> (r: (&'a str, Option<Vec<Operator>>))
    ensures
        r.0@ == input@.take(dice_split_idx(input@)),
        match r.1 {
            Some(ops) => ops@ == parsed_ops(input@.skip(dice_split_idx(input@))) && ops@.len()
                > 0,
            None => parsed_ops(input@.skip(dice_split_idx(input@))).len() == 0,
        },
{
    let s = input;
    let n = s.unicode_len();
    // Find where the dice part ends.
    let mut split: usize = 0;
    while split < n && !op_char(s.get_char(split))
        invariant
            n == s@.len(),
            split <= n,
            forall|j: int| 0 <= j < split ==> !is_op_char(s@[j]),
        decreases n - split,
    {
        split += 1;
    }
    proof {
        lemma_dice_split_idx(s@);
        let d = dice_split_idx(s@);
        if d < split as int {
            assert(!is_op_char(s@[d]));
        }
        if d > split as int {
            assert(!is_op_char(s@[split as int]));
        }
        assert(d == split as int);
    }
    let dice_part = s.substring_char(0, split);
    // Scan the tail for operations.
    let mut ops: Vec<Operator> = Vec::new();
    let mut i: usize = split;
    while i < n
        invariant
            n == s@.len(),
            split <= i <= n,
            split as int == dice_split_idx(s@),
            dice_part@ == s@.take(split as int),
            ops@ + parsed_ops(s@.skip(i as int)) == parsed_ops(s@.skip(split as int)),
        decreases n - i,
    {
        let ghost tail = s@.skip(i as int);
        let ghost ops0 = ops@;
        proof {
            assert(tail[0] == s@[i as int]);
        }
        let c = s.get_char(i);
        if !op_char(c) {
            proof {
                assert(tail.drop_first() =~= s@.skip(i + 1));
                assert(ops@ + parsed_ops(s@.skip(i + 1)) =~= ops@ + parsed_ops(
                    s@.skip(i as int),
                ));
            }
            i += 1;
        } else {
            // An operator: take the digits that follow as its operand.
            let neg = c == '-' && i + 1 < n && s.get_char(i + 1) == '-';
            let start = if neg {
                i + 2
            } else {
                i + 1
            };
            let ghost rest = s@.skip(start as int);
            let mut j: usize = start;
            let mut acc: u64 = 0;
            while j < n && digit_char(s.get_char(j))
                invariant
                    n == s@.len(),
                    i < n,
                    c == s@[i as int],
                    is_op_char(c),
                    tail == s@.skip(i as int),
                    neg == (c == '-' && i + 1 < n && s@[i + 1] == '-'),
                    start == i + (if neg {
                        2int
                    } else {
                        1int
                    }),
                    start <= j <= n,
                    rest == s@.skip(start as int),
                    forall|k: int| 0 <= k < j - start ==> is_digit(rest[k]),
                    ({
                        let dv = digits_val(rest.take(j - start));
                        &&& dv >= 0
                        &&& dv <= 3_000_000_000 ==> acc == dv
                        &&& dv > 3_000_000_000 ==> acc > 3_000_000_000
                    }),
                decreases n - j,
            {
                let ghost prefix = rest.take(j - start);
                let ghost dv = digits_val(prefix);
                let d = s.get_char(j) as u32 as u64 - 48;
                proof {
                    assert(rest[j - start] == s@[j as int]);
                    assert(rest.take(j + 1 - start).drop_last() =~= prefix);
                    assert(rest.take(j + 1 - start).last() == rest[j - start]);
                    assert(digits_val(rest.take(j + 1 - start)) == dv * 10 + (rest[j
                        - start] as int - 48));
                }
                if acc <= 3_000_000_000 {
                    acc = acc * 10 + d;
                }
                j += 1;
            }
            // The scanned digits are exactly the digit prefix of `rest`.
            let dlen = j - start;
            proof {
                lemma_digits_len(rest);
                let dl = digits_len(rest);
                if j < n {
                    assert(rest[j - start] == s@[j as int]);
                }
                if dl < dlen as int {
                    assert(is_digit(rest[dl]));
                }
                if dl > dlen as int {
                    assert(is_digit(rest[dlen as int]));
                }
                assert(dl == dlen as int);
            }
            let ghost v0 = digits_val(rest.take(dlen as int));
            let ghost v: int = if neg {
                -v0
            } else {
                v0
            };
            proof {
                if neg {
                    assert(tail.len() >= 2 && tail[1] == s@[i + 1]);
                    assert(rest =~= tail.skip(2));
                } else {
                    assert(rest =~= tail.skip(1));
                }
                assert(rest.skip(dlen as int) =~= s@.skip(j as int));
                if dlen > 0 {
                    assert forall|k: int|
                        0 <= k < rest.take(dlen as int).len() implies is_digit(
                        rest.take(dlen as int)[k],
                    ) by {
                        assert(rest.take(dlen as int)[k] == rest[k]);
                    }
                    lemma_digits_val_nonneg(rest.take(dlen as int));
                }
                assert(parsed_ops(tail) == if dlen > 0 && i32::MIN <= v <= i32::MAX {
                    seq![mk_op(tail[0], v)] + parsed_ops(s@.skip(j as int))
                } else {
                    parsed_ops(s@.skip(j as int))
                });
            }
            if dlen > 0 {
                let fits = if neg {
                    acc <= 2_147_483_648
                } else {
                    acc <= 2_147_483_647
                };
                proof {
                    assert(fits == (i32::MIN <= v <= i32::MAX));
                }
                if fits {
                    let val: i32 = if neg {
                        if acc == 2_147_483_648 {
                            i32::MIN
                        } else {
                            let a = acc as i32;
                            -a
                        }
                    } else {
                        acc as i32
                    };
                    proof {
                        assert(val as int == v);
                    }
                    let op = if c == '+' {
                        Operator::Add(val)
                    } else if c == '-' {
                        Operator::Subtract(val)
                    } else if c == '*' {
                        Operator::Multiply(val)
                    } else {
                        Operator::Divide(val)
                    };
                    proof {
                        assert(op == mk_op(tail[0], v));
                    }
                    ops.push(op);
                    proof {
                        assert(ops@ =~= ops0.push(op));
                        assert(ops@ + parsed_ops(s@.skip(j as int)) =~= ops0 + (seq![op]
                            + parsed_ops(s@.skip(j as int))));
                    }
                }
            }
            i = j;
        }
    }
    proof {
        assert(s@.skip(n as int) =~= Seq::<char>::empty());
        assert(ops@ + parsed_ops(s@.skip(n as int)) =~= ops@);
        assert(dice_part@ == s@.take(dice_split_idx(s@)));
    }
    if ops.len() == 0 {
        (dice_part, None)
    } else {
        (dice_part, Some(ops))
    }
}

} // verus!
