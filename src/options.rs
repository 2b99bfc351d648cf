//! The board-size argument: `SIZE` for a square board or `WIDTH,HEIGHT`,
//! each a decimal number.

use vstd::prelude::*;

verus! {

/// Why a board-size argument was refused.
#[derive(Clone, Copy, Debug, PartialEq, Eq, Structural)]
pub enum SizeError {
    /// One of the comma-separated numbers is empty.
    EmptyNumber,
    /// One of the numbers holds something other than digits, or does not fit.
    InvalidNumber,
    /// There are neither one nor two numbers.
    WrongCount,
}

/// The size used when no argument is given.
pub const DEFAULT_SIZE: (usize, usize) = (80, 60);

pub open spec fn is_digit(b: u8) -> bool {
    48 <= b <= 57
}

/// The number the decimal digits `d` spell out.
pub open spec fn decimal_value(d: Seq<u8>) -> nat
    decreases d.len(),
{
    if d.len() == 0 {
        0
    } else {
        decimal_value(d.drop_last()) * 10 + (d.last() - 48) as nat
    }
}

/// The digits of a number, after an optional leading `+`.
pub open spec fn digits_of(f: Seq<u8>) -> Seq<u8> {
    if f.len() > 0 && f[0] == 43 {
        f.skip(1)
    } else {
        f
    }
}

/// Whether `f` is a number that fits a `usize`.
pub open spec fn number_ok(f: Seq<u8>) -> bool {
    let d = digits_of(f);
    &&& d.len() > 0
    &&& forall|i: int| 0 <= i < d.len() ==> is_digit(#[trigger] d[i])
    &&& decimal_value(d) <= usize::MAX
}

/// The error a piece that is not a number gives.
pub open spec fn number_error(f: Seq<u8>) -> SizeError {
    if f.len() == 0 {
        SizeError::EmptyNumber
    } else {
        SizeError::InvalidNumber
    }
}

/// Whether piece `k` is the first of `parts` that is not a number.
pub open spec fn first_bad(parts: Seq<Seq<u8>>, k: int) -> bool {
    &&& 0 <= k < parts.len()
    &&& !number_ok(parts[k])
    &&& forall|j: int| 0 <= j < k ==> number_ok(#[trigger] parts[j])
}

/// The pieces of `s` between commas.
pub open spec fn split_commas(s: Seq<u8>) -> Seq<Seq<u8>>
    decreases s.len(),
{
    if s.len() == 0 {
        seq![Seq::<u8>::empty()]
    } else {
        let p = split_commas(s.drop_last());
        if s.last() == 44 {
            p.push(Seq::<u8>::empty())
        } else {
            p.update(p.len() - 1, p.last().push(s.last()))
        }
    }
}

proof fn lemma_split_nonempty(s: Seq<u8>)
    ensures
        split_commas(s).len() >= 1,
    decreases s.len(),
{
    if s.len() > 0 {
        lemma_split_nonempty(s.drop_last());
    }
}

proof fn lemma_prefix_value(d: Seq<u8>, k: int)
    requires
        0 <= k <= d.len(),
        forall|i: int| 0 <= i < d.len() ==> is_digit(#[trigger] d[i]),
    ensures
        decimal_value(d.take(k)) <= decimal_value(d),
    decreases d.len() - k,
{
    if k < d.len() {
        assert(d.take(k + 1).drop_last() == d.take(k));
        lemma_prefix_value(d, k + 1);
    } else {
        assert(d.take(k) == d);
    }
}

/// Reads one number.
pub fn parse_number(f: &Vec<u8>) -> (r: Result<usize, SizeError>)
    ensures
        r is Ok <==> number_ok(f@),
        r matches Ok(v) ==> v == decimal_value(digits_of(f@)),
        r == Err::<usize, SizeError>(SizeError::EmptyNumber) <==> f.len() == 0,
        r is Err ==> r == Err::<usize, SizeError>(SizeError::EmptyNumber) || r == Err::<
            usize,
            SizeError,
        >(SizeError::InvalidNumber),
{
    if f.len() == 0 {
        return Err(SizeError::EmptyNumber);
    }
    let start: usize = if f[0] == 43 {
        1
    } else {
        0
    };
    let ghost d = digits_of(f@);
    proof {
        assert(d == f@.skip(start as int));
    }
    if start == f.len() {
        return Err(SizeError::InvalidNumber);
    }
    let mut acc: usize = 0;
    let mut i: usize = start;
    while i < f.len()
        invariant
            start <= i <= f.len(),
            start < f.len(),
            d == f@.skip(start as int),
            d == digits_of(f@),
            forall|j: int| 0 <= j < i - start ==> is_digit(#[trigger] d[j]),
            acc == decimal_value(d.take(i - start)),
        decreases f.len() - i,
    {
        let b = f[i];
        proof {
            assert(d[i - start] == b);
            assert(d.take(i - start + 1).drop_last() == d.take(i - start));
        }
        if b < 48 || b > 57 {
            assert(!is_digit(d[i - start]));
            return Err(SizeError::InvalidNumber);
        }
        proof {
            assert(d.take(i - start + 1).last() == b);
            assert(decimal_value(d.take(i - start + 1)) == acc * 10 + (b - 48));
        }
        match acc.checked_mul(10) {
            Some(m) => match m.checked_add((b - 48) as usize) {
                Some(next) => {
                    acc = next;
                },
                None => {
                    proof {
                        lemma_overflow_refuses(d, i - start + 1);
                    }
                    return Err(SizeError::InvalidNumber);
                },
            },
            None => {
                proof {
                    lemma_overflow_refuses(d, i - start + 1);
                }
                return Err(SizeError::InvalidNumber);
            },
        }
        i += 1;
    }
    proof {
        assert(d.take(d.len() as int) == d);
    }
    Ok(acc)
}

proof fn lemma_overflow_refuses(d: Seq<u8>, k: int)
    requires
        0 <= k <= d.len(),
        decimal_value(d.take(k)) > usize::MAX,
    ensures
        !(forall|i: int| 0 <= i < d.len() ==> is_digit(#[trigger] d[i]))
            || decimal_value(d) > usize::MAX,
{
    if forall|i: int| 0 <= i < d.len() ==> is_digit(#[trigger] d[i]) {
        lemma_prefix_value(d, k);
    }
}

/// Splits `s` at its commas.
pub fn split_at_commas(s: &Vec<u8>) -> (r: Vec<Vec<u8>>)
    ensures
        r@.map_values(|v: Vec<u8>| v@) == split_commas(s@),
{
    let mut pieces: Vec<Vec<u8>> = Vec::new();
    let mut current: Vec<u8> = Vec::new();
    let mut i: usize = 0;
    while i < s.len()
        invariant
            i <= s.len(),
            pieces@.map_values(|v: Vec<u8>| v@).push(current@) == split_commas(s@.take(i as int)),
        decreases s.len() - i,
    {
        proof {
            assert(s@.take(i + 1).drop_last() == s@.take(i as int));
            lemma_split_nonempty(s@.take(i as int));
        }
        let ghost before = pieces@.map_values(|v: Vec<u8>| v@);
        if s[i] == 44 {
            let mut done: Vec<u8> = Vec::new();
            std::mem::swap(&mut done, &mut current);
            pieces.push(done);
            proof {
                assert(pieces@.map_values(|v: Vec<u8>| v@) == before.push(done@));
            }
        } else {
            current.push(s[i]);
            proof {
                assert(pieces@.map_values(|v: Vec<u8>| v@) == before);
            }
        }
        i += 1;
    }
    proof {
        assert(s@.take(s.len() as int) == s@);
    }
    let ghost before = pieces@.map_values(|v: Vec<u8>| v@);
    pieces.push(current);
    proof {
        assert(pieces@.map_values(|v: Vec<u8>| v@) == before.push(current@));
    }
    pieces
}

/// The comma-separated numbers of `s`, or the error of the first piece that
/// is not a number.
pub fn parse_csv_ints(s: &Vec<u8>) -> (r: Result<Vec<usize>, SizeError>)
    ensures
        r is Ok <==> forall|k: int|
            0 <= k < split_commas(s@).len() ==> number_ok(#[trigger] split_commas(s@)[k]),
        r matches Ok(v) ==> v@.len() == split_commas(s@).len() && forall|k: int|
            0 <= k < v@.len() ==> v@[k] == decimal_value(
                digits_of(#[trigger] split_commas(s@)[k]),
            ),
        r is Err ==> exists|k: int|
            #[trigger] first_bad(split_commas(s@), k) && r == Err::<Vec<usize>, SizeError>(
                number_error(split_commas(s@)[k]),
            ),
{
    let pieces = split_at_commas(s);
    let ghost parts = split_commas(s@);
    let mut sizes: Vec<usize> = Vec::new();
    let mut k: usize = 0;
    while k < pieces.len()
        invariant
            pieces@.map_values(|v: Vec<u8>| v@) == parts,
            parts == split_commas(s@),
            k <= pieces.len(),
            sizes@.len() == k,
            forall|j: int| 0 <= j < k ==> number_ok(#[trigger] parts[j]),
            forall|j: int| 0 <= j < k ==> sizes@[j] == decimal_value(digits_of(#[trigger] parts[j])),
        decreases pieces.len() - k,
    {
        proof {
            assert(parts[k as int] == pieces@[k as int]@);
        }
        match parse_number(&pieces[k]) {
            Ok(v) => {
                sizes.push(v);
            },
            Err(e) => {
                proof {
                    assert(first_bad(parts, k as int));
                }
                return Err(e);
            },
        }
        k += 1;
    }
    Ok(sizes)
}

/// The board size an argument asks for: the default without one, a square
/// for one number, width and height for two.
pub fn parse_size(arg: Option<&Vec<u8>>) -> (r: Result<(usize, usize), SizeError>)
    ensures
        arg is None ==> r == Ok::<(usize, usize), SizeError>(DEFAULT_SIZE),
        arg matches Some(s) ==> {
            let parts = split_commas(s@);
            &&& (forall|k: int| 0 <= k < parts.len() ==> number_ok(#[trigger] parts[k])) ==> {
                &&& parts.len() == 1 ==> r == Ok::<(usize, usize), SizeError>(
                    (
                        decimal_value(digits_of(parts[0])) as usize,
                        decimal_value(digits_of(parts[0])) as usize,
                    ),
                )
                &&& parts.len() == 2 ==> r == Ok::<(usize, usize), SizeError>(
                    (
                        decimal_value(digits_of(parts[0])) as usize,
                        decimal_value(digits_of(parts[1])) as usize,
                    ),
                )
                &&& parts.len() > 2 ==> r == Err::<(usize, usize), SizeError>(
                    SizeError::WrongCount,
                )
            }
            &&& !(forall|k: int| 0 <= k < parts.len() ==> number_ok(#[trigger] parts[k]))
                ==> exists|k: int|
                #[trigger] first_bad(parts, k) && r == Err::<(usize, usize), SizeError>(
                    number_error(parts[k]),
                )
        },
{
    match arg {
        None => Ok(DEFAULT_SIZE),
        Some(s) => {
            proof {
                lemma_split_nonempty(s@);
            }
            let sizes = match parse_csv_ints(s) {
                Ok(v) => v,
                Err(e) => {
                    return Err(e);
                },
            };
            if sizes.len() == 1 {
                Ok((sizes[0], sizes[0]))
            } else if sizes.len() == 2 {
                Ok((sizes[0], sizes[1]))
            } else {
                Err(SizeError::WrongCount)
            }
        },
    }
}

} // verus!
