use vstd::prelude::*;

verus! {

/// The shortest base-128 form of `n`: seven bits per byte, least
/// significant group first, the top bit set on every byte but the last.
pub open spec fn varint(n: nat) -> Seq<u8>
    decreases n,
{
    if n < 128 {
        seq![n as u8]
    } else {
        seq![(n % 128 + 128) as u8] + varint(n / 128)
    }
}

/// The integer in shortest form at the front of `bytes`, with the number of
/// bytes it takes, if there is one.
pub open spec fn parse_varint(bytes: Seq<u8>) -> Option<(nat, int)>
    decreases bytes.len(),
{
    if bytes.len() == 0 {
        None
    } else if bytes[0] < 128 {
        Some((bytes[0] as nat, 1int))
    } else {
        match parse_varint(bytes.skip(1)) {
            Some((high, used)) => if high == 0 {
                None
            } else {
                Some(((bytes[0] - 128 + 128 * high) as nat, used + 1))
            },
            None => None,
        }
    }
}

/// As [`parse_varint`], but only for an integer that fits the machine word.
pub open spec fn parse_word(bytes: Seq<u8>) -> Option<(nat, int)> {
    match parse_varint(bytes) {
        Some((value, used)) => if value <= usize::MAX {
            Some((value, used))
        } else {
            None
        },
        None => None,
    }
}

/// Parsing what `varint` wrote gives the integer back, whatever follows it.
pub proof fn lemma_parse_varint_of_varint(n: nat, rest: Seq<u8>)
    ensures
        parse_varint(varint(n) + rest) == Some((n, varint(n).len() as int)),
    decreases n,
{
    let bytes = varint(n) + rest;
    if n < 128 {
        assert(bytes[0] == n as u8);
    } else {
        let high = n / 128;
        lemma_parse_varint_of_varint(high, rest);
        assert(bytes[0] == (n % 128 + 128) as u8);
        assert(bytes.skip(1) =~= varint(high) + rest);
        assert(high >= 1);
        assert(bytes[0] - 128 + 128 * high == n);
    }
}

/// Whatever parses as a varint is the shortest form of its value.
pub proof fn lemma_varint_of_parse_varint(bytes: Seq<u8>)
    ensures
        parse_varint(bytes) matches Some((value, used)) ==> 1 <= used <= bytes.len()
            && bytes.take(used) == varint(value),
    decreases bytes.len(),
{
    if bytes.len() > 0 {
        if bytes[0] < 128 {
            assert(bytes.take(1) =~= seq![bytes[0]]);
        } else {
            lemma_varint_of_parse_varint(bytes.skip(1));
            if let Some((high, used)) = parse_varint(bytes.skip(1)) {
                if high != 0 {
                    let value = (bytes[0] - 128 + 128 * high) as nat;
                    assert(value >= 128);
                    assert(value / 128 == high);
                    assert(value % 128 + 128 == bytes[0]);
                    assert(bytes.take(used + 1) =~= seq![bytes[0]] + bytes.skip(1).take(
                        used,
                    ));
                }
            }
        }
    }
}

/// What the first `count` groups of a varint contribute, folded into the
/// parse of what follows them.
spec fn with_low_groups(low: nat, scale: nat, count: nat, tail: Option<(nat, int)>) -> Option<
    (nat, int),
> {
    match tail {
        Some((high, used)) => if count > 0 && high == 0 {
            None
        } else {
            Some((low + scale * high, used + count))
        },
        None => None,
    }
}

spec fn pow128(count: nat) -> nat
    decreases count,
{
    if count == 0 {
        1
    } else {
        128 * pow128((count - 1) as nat)
    }
}

proof fn lemma_pow128_ten()
    ensures
        pow128(10) == 0x40_0000_0000_0000_0000,
        forall|count: nat| count <= 9 ==> #[trigger] pow128(count) <= 0x8000_0000_0000_0000,
{
    reveal_with_fuel(pow128, 11);
    assert forall|count: nat| count <= 9 implies #[trigger] pow128(count)
        <= 0x8000_0000_0000_0000 by {
        if count == 0 {
        } else if count == 1 {
        } else if count == 2 {
        } else if count == 3 {
        } else if count == 4 {
        } else if count == 5 {
        } else if count == 6 {
        } else if count == 7 {
        } else if count == 8 {
        } else {
            assert(count == 9);
        }
    }
}

/// Appends the shortest base-128 form of `n` to `out`.
pub fn write_varint(out: &mut Vec<u8>, n: usize)
    ensures
        final(out)@ == old(out)@ + varint(n as nat),
{
    let mut rest: usize = n;
    while rest >= 128
        invariant
            old(out)@ + varint(n as nat) == out@ + varint(rest as nat),
        decreases rest,
    {
        let ghost before = out@;
        out.push((rest % 128 + 128) as u8);
        assert(before + varint(rest as nat) =~= out@ + varint((rest / 128) as nat));
        rest = rest / 128;
    }
    let ghost before = out@;
    out.push(rest as u8);
    assert(before + varint(rest as nat) =~= out@);
}

/// Reads the integer in shortest form that starts at `start`.
///
/// Returns the value and the position after it, or `None` where `bytes`
/// holds no such integer there: the buffer ends first, the form is not the
/// shortest, or the value does not fit the machine word.
pub fn read_varint(bytes: &[u8], start: usize) -> (result: Option<(usize, usize)>)
    requires
        start <= bytes@.len(),
    ensures
        match parse_word(bytes@.skip(start as int)) {
            Some((value, used)) => result == Some((value as usize, (start + used) as usize))
                && 1 <= used && start + used <= bytes@.len(),
            None => result is None,
        },
{
    let len: usize = bytes.len();
    let mut low: u128 = 0;
    let mut scale: u128 = 1;
    let mut count: usize = 0;
    proof {
        lemma_pow128_ten();
        reveal_with_fuel(pow128, 1);
    }
    loop
        invariant
            len == bytes@.len(),
            start + count <= len,
            count <= 10,
            scale == pow128(count as nat),
            low < scale,
            parse_varint(bytes@.skip(start as int)) == with_low_groups(
                low as nat,
                scale as nat,
                count as nat,
                parse_varint(bytes@.skip(start + count)),
            ),
        decreases 10 - count,
    {
        let ghost tail = bytes@.skip(start + count);
        if len - start == count {
            assert(tail.len() == 0);
            return None;
        }
        if count == 10 {
            proof {
                lemma_pow128_ten();
                if let Some((high, used)) = parse_varint(tail) {
                    if high != 0 {
                        assert(scale * high >= scale) by (nonlinear_arith)
                            requires
                                high >= 1,
                                scale >= 0,
                        ;
                    }
                }
            }
            return None;
        }
        let byte: u8 = bytes[start + count];
        assert(tail[0] == byte);
        proof {
            lemma_pow128_ten();
            assert(scale <= 0x8000_0000_0000_0000);
        }
        if byte < 128 {
            if count > 0 && byte == 0 {
                return None;
            }
            assert(scale * byte <= 0x8000_0000_0000_0000 * 127) by (nonlinear_arith)
                requires
                    scale <= 0x8000_0000_0000_0000,
                    byte <= 127,
            ;
            let value: u128 = low + scale * (byte as u128);
            if value > usize::MAX as u128 {
                return None;
            }
            proof {
                lemma_varint_of_parse_varint(bytes@.skip(start as int));
            }
            return Some((value as usize, start + count + 1));
        }
        let group: u128 = (byte - 128) as u128;
        proof {
            assert(scale * group <= scale * 127) by (nonlinear_arith)
                requires
                    group <= 127,
                    scale >= 0,
            ;
            assert(tail.skip(1) =~= bytes@.skip(start + count + 1));
            reveal_with_fuel(pow128, 2);
            if let Some((high, used)) = parse_varint(tail.skip(1)) {
                assert(scale * (group + 128 * high) == scale * group + (scale * 128) * high)
                    by (nonlinear_arith);
            }
        }
        low = low + scale * group;
        scale = scale * 128;
        count = count + 1;
    }
}

} // verus!
