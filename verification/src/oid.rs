//! The contents of an `OBJECT IDENTIFIER` (X.690 8.19): the first two arcs
//! folded into one as `40 * first + second`, then every arc in base 128,
//! the high bit set on every byte but an arc's last.

use vstd::prelude::*;

use crate::Asn1Error;

verus! {

/// `x` in the fewest base-128 digits, big-endian, each with the high bit
/// set but the last, which has it set only where `last` is false.
pub open spec fn base128_spec(x: nat, last: bool) -> Seq<u8>
    decreases x,
{
    let mark: nat = if last {
        0
    } else {
        0x80
    };
    if x < 128 {
        seq![(x + mark) as u8]
    } else {
        base128_spec(x / 128, false).push((x % 128 + mark) as u8)
    }
}

/// The first two arcs folded into one, a missing arc read as zero.
pub open spec fn folded_arc(arcs: Seq<u32>) -> nat {
    (if arcs.len() > 0 {
        arcs[0] as nat
    } else {
        0
    }) * 40 + (if arcs.len() > 1 {
        arcs[1] as nat
    } else {
        0
    })
}

/// The arcs after the first two.
pub open spec fn later_arcs(arcs: Seq<u32>) -> Seq<u32> {
    if arcs.len() > 2 {
        arcs.subrange(2, arcs.len() as int)
    } else {
        seq![]
    }
}

/// Every arc of `arcs` in base 128, one after another.
pub open spec fn arcs_base128(arcs: Seq<u32>) -> Seq<u8>
    decreases arcs.len(),
{
    if arcs.len() == 0 {
        seq![]
    } else {
        arcs_base128(arcs.drop_last()) + base128_spec(arcs.last() as nat, true)
    }
}

/// The contents that encode `arcs`.
pub open spec fn object_identifier_spec(arcs: Seq<u32>) -> Seq<u8> {
    base128_spec(folded_arc(arcs), true) + arcs_base128(later_arcs(arcs))
}

/// The words of the failure where the contents are empty.
pub open spec fn empty_oid_text() -> Seq<char> {
    "an empty OBJECT IDENTIFIER"@
}

/// The words of the failure where an arc is larger than 32 bits.
pub open spec fn large_arc_text() -> Seq<char> {
    "an OBJECT IDENTIFIER arc larger than 32 bits"@
}

/// The words of the failure where the last arc does not end.
pub open spec fn unended_arc_text() -> Seq<char> {
    "an OBJECT IDENTIFIER arc that does not end"@
}

/// The first two arcs that one folded arc stands for: under 80, its
/// quotient and remainder by 40; from 80, arc 2 and what is left.
pub open spec fn unfold_arc(arc: u32) -> Seq<u32> {
    if arc < 80 {
        seq![arc / 40, arc % 40]
    } else {
        seq![2u32, (arc - 80) as u32]
    }
}

/// The arcs that `contents` finish, and the arc begun and not yet finished,
/// or the words of why an arc is too large. A byte without the high bit
/// finishes an arc; before any byte an arc must be under 2^25, so that
/// seven more bits keep it under 2^32.
pub open spec fn oid_scan(contents: Seq<u8>) -> Result<(Seq<u32>, u32), Seq<char>>
    decreases contents.len(),
{
    if contents.len() == 0 {
        Ok((seq![], 0))
    } else {
        match oid_scan(contents.drop_last()) {
            Err(why) => Err(why),
            Ok((arcs, arc)) => if arc >= 0x200_0000 {
                Err(large_arc_text())
            } else {
                let byte = contents.last();
                let next = (arc * 128 + byte % 128) as u32;
                if byte < 0x80 {
                    Ok(
                        (
                            if arcs.len() == 0 {
                                unfold_arc(next)
                            } else {
                                arcs.push(next)
                            },
                            0,
                        ),
                    )
                } else {
                    Ok((arcs, next))
                }
            },
        }
    }
}

/// The arcs an `OBJECT IDENTIFIER`'s contents encode, or the words of why
/// they encode none.
pub open spec fn read_object_identifier_spec(contents: Seq<u8>) -> Result<Seq<u32>, Seq<char>> {
    if contents.len() == 0 {
        Err(empty_oid_text())
    } else {
        match oid_scan(contents) {
            Err(why) => Err(why),
            Ok((arcs, _)) => if contents.last() >= 0x80 {
                Err(unended_arc_text())
            } else {
                Ok(arcs)
            },
        }
    }
}

/// The contents that encode `arcs`. An identifier of fewer than two arcs is
/// written as though the missing ones were zero.
pub fn object_identifier(arcs: &[u32]) -> (contents: Vec<u8>)
    requires
        folded_arc(arcs@) <= u32::MAX,
    ensures
        contents@ == object_identifier_spec(arcs@),
{
    let mut out: Vec<u8> = Vec::new();
    let first: u32 = if arcs.len() > 0 {
        arcs[0]
    } else {
        0
    };
    let second: u32 = if arcs.len() > 1 {
        arcs[1]
    } else {
        0
    };
    base128(&mut out, first * 40 + second, true);
    let ghost head = out@;
    let mut i: usize = 2;
    proof {
        assert(arcs_base128(Seq::<u32>::empty()) =~= Seq::<u8>::empty());
        assert(out@ =~= head + arcs_base128(Seq::<u32>::empty()));
    }
    while i < arcs.len()
        invariant
            2 <= i,
            i <= arcs.len() || arcs.len() < 2,
            i > arcs.len() ==> i == 2,
            head == base128_spec(folded_arc(arcs@), true),
            out@ == head + arcs_base128(
                if i <= arcs.len() {
                    arcs@.subrange(2, i as int)
                } else {
                    seq![]
                },
            ),
        decreases arcs.len() - i,
    {
        let ghost before = out@;
        base128(&mut out, arcs[i], true);
        proof {
            let done = arcs@.subrange(2, i as int + 1);
            assert(done.drop_last() =~= arcs@.subrange(2, i as int));
            assert(out@ =~= head + arcs_base128(done));
        }
        i = i + 1;
    }
    proof {
        if arcs.len() > 2 {
            assert(later_arcs(arcs@) =~= arcs@.subrange(2, arcs.len() as int));
        } else if arcs.len() == 2 {
            assert(arcs@.subrange(2, 2) =~= Seq::<u32>::empty());
        }
    }
    out
}

/// Append `arc` in base 128, the high bit set on every byte but the last,
/// which has it set only where `last` is false.
fn base128(out: &mut Vec<u8>, arc: u32, last: bool)
    ensures
        final(out)@ == old(out)@ + base128_spec(arc as nat, last),
    decreases arc,
{
    let mark: u8 = if last {
        0
    } else {
        0x80
    };
    if arc >= 128 {
        base128(out, arc / 128, false);
    }
    out.push((arc % 128) as u8 + mark);
    assert(out@ =~= old(out)@ + base128_spec(arc as nat, last));
}

/// The arcs an `OBJECT IDENTIFIER`'s contents encode.
///
/// # Errors
///
/// Empty contents, an arc larger than 32 bits, or a last arc that does not
/// end.
pub fn read_object_identifier(contents: &[u8]) -> (r: Result<Vec<u32>, Asn1Error>)
    ensures
        match r {
            Ok(arcs) => read_object_identifier_spec(contents@) == Ok::<Seq<u32>, Seq<char>>(
                arcs@,
            ),
            Err(e) => read_object_identifier_spec(contents@) == Err::<Seq<u32>, Seq<char>>(
                e.message@,
            ),
        },
{
    if contents.len() == 0 {
        return Err(Asn1Error { message: String::from_str("an empty OBJECT IDENTIFIER") });
    }
    let mut arcs: Vec<u32> = Vec::new();
    let mut arc: u32 = 0;
    let mut i: usize = 0;
    assert(contents@.take(0) =~= Seq::<u8>::empty());
    while i < contents.len()
        invariant
            0 <= i <= contents.len(),
            oid_scan(contents@.take(i as int)) == Ok::<(Seq<u32>, u32), Seq<char>>(
                (arcs@, arc),
            ),
        decreases contents.len() - i,
    {
        let byte = contents[i];
        assert(contents@.take(i as int + 1).drop_last() =~= contents@.take(i as int));
        if arc >= 0x200_0000 {
            proof {
                lemma_scan_failure_stays(contents@, i as int + 1);
            }
            return Err(
                Asn1Error {
                    message: String::from_str("an OBJECT IDENTIFIER arc larger than 32 bits"),
                },
            );
        }
        arc = arc * 128 + (byte % 128) as u32;
        if byte < 0x80 {
            if arcs.len() == 0 {
                let (first, second) = if arc < 80 {
                    (arc / 40, arc % 40)
                } else {
                    (2, arc - 80)
                };
                arcs.push(first);
                arcs.push(second);
                assert(arcs@ =~= unfold_arc(arc));
            } else {
                arcs.push(arc);
            }
            arc = 0;
        }
        i = i + 1;
    }
    assert(contents@.take(contents.len() as int) =~= contents@);
    if contents[contents.len() - 1] >= 0x80 {
        return Err(
            Asn1Error { message: String::from_str("an OBJECT IDENTIFIER arc that does not end") },
        );
    }
    Ok(arcs)
}

/// Where the scan of a prefix fails, the scan of the whole fails alike.
proof fn lemma_scan_failure_stays(contents: Seq<u8>, n: int)
    requires
        0 <= n <= contents.len(),
        oid_scan(contents.take(n)) is Err,
    ensures
        oid_scan(contents) == oid_scan(contents.take(n)),
    decreases contents.len(),
{
    if n < contents.len() {
        assert(contents.drop_last().take(n) =~= contents.take(n));
        lemma_scan_failure_stays(contents.drop_last(), n);
    } else {
        assert(contents.take(n) =~= contents);
    }
}

} // verus!
