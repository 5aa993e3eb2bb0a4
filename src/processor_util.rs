//! Field extraction for rows of the line-based scan format.

use vstd::prelude::*;
use vstd::string::StringSliceAdditionalSpecFns;

verus! {

pub open spec fn is_digit(c: u8) -> bool {
    48 <= c <= 57
}

pub open spec fn all_digits(b: Seq<u8>) -> bool {
    forall|i: int| 0 <= i < b.len() ==> is_digit(#[trigger] b[i])
}

/// The decimal value of the digits `b`.
pub open spec fn decimal_value(b: Seq<u8>) -> int
    decreases b.len(),
{
    if b.len() == 0 {
        0
    } else {
        decimal_value(b.drop_last()) * 10 + (b.last() - 48)
    }
}

/// One or more decimal digits of a value up to 255.
pub open spec fn valid_hop_count(b: Seq<u8>) -> bool {
    b.len() > 0 && all_digits(b) && decimal_value(b) <= 255
}

proof fn lemma_decimal_prefix(b: Seq<u8>, k: int)
    requires
        all_digits(b),
        0 <= k <= b.len(),
    ensures
        decimal_value(b.subrange(0, k)) <= decimal_value(b),
        decimal_value(b) >= 0,
    decreases b.len(),
{
    if b.len() > 0 {
        let l = b.drop_last();
        assert(all_digits(l)) by {
            assert forall|i: int| 0 <= i < l.len() implies is_digit(#[trigger] l[i]) by {
                assert(l[i] == b[i]);
            }
        }
        assert(is_digit(b[b.len() - 1]));
        if k < b.len() {
            lemma_decimal_prefix(l, k);
            assert(l.subrange(0, k) =~= b.subrange(0, k));
        } else {
            lemma_decimal_prefix(l, 0);
            assert(b.subrange(0, k) =~= b);
        }
    } else {
        assert(b.subrange(0, k) =~= b);
    }
}

/// The hop count written in `hop_count_str`: one to three decimal digits of
/// a value up to 255; `None` for anything else.
pub fn hop_count_str_to_numeric(hop_count_str: &str) -> (r: Option<u8>)
    ensures
        r is Some <==> valid_hop_count(hop_count_str.spec_bytes()),
        r matches Some(v) ==> v == decimal_value(hop_count_str.spec_bytes()),
{
    let b = hop_count_str.as_bytes();
    assert(b@ == hop_count_str.spec_bytes());
    let n = b.len();
    if n == 0 {
        return None;
    }
    let mut acc: u32 = 0;
    let mut i: usize = 0;
    while i < n
        invariant
            n == b@.len(),
            b@ == hop_count_str.spec_bytes(),
            0 <= i <= n,
            all_digits(b@.subrange(0, i as int)),
            acc == decimal_value(b@.subrange(0, i as int)),
            acc <= 255,
        decreases n - i,
    {
        let c = b[i];
        proof {
            assert(b@.subrange(0, i as int + 1).drop_last() =~= b@.subrange(0, i as int));
        }
        if c < 48 || c > 57 {
            proof {
                assert(!is_digit(b@[i as int]));
                assert(!all_digits(b@));
            }
            return None;
        }
        acc = acc * 10 + (c - 48) as u32;
        proof {
            assert(b@.subrange(0, i as int + 1).last() == c);
            assert(acc == decimal_value(b@.subrange(0, i as int + 1)));
            assert(all_digits(b@.subrange(0, i as int + 1))) by {
                assert forall|j: int| 0 <= j < i + 1 implies is_digit(#[trigger] b@.subrange(0, i as int + 1)[j]) by {
                    if j < i {
                        assert(b@.subrange(0, i as int + 1)[j] == b@.subrange(0, i as int)[j]);
                    }
                }
            }
        }
        if acc > 255 {
            proof {
                if all_digits(b@) {
                    lemma_decimal_prefix(b@, i as int + 1);
                    assert(decimal_value(b@) > 255);
                }
            }
            return None;
        }
        i = i + 1;
    }
    proof {
        assert(b@.subrange(0, n as int) =~= b@);
    }
    Some(acc as u8)
}

/// The number of space bytes in `b`.
pub open spec fn spaces_in(b: Seq<u8>) -> int
    decreases b.len(),
{
    if b.len() == 0 {
        0
    } else {
        spaces_in(b.drop_last()) + if b.last() == 32 { 1int } else { 0int }
    }
}

/// `p` is the position of the space with `k` spaces before it.
pub open spec fn is_space_no(b: Seq<u8>, p: int, k: int) -> bool {
    0 <= p < b.len() && b[p] == 32 && spaces_in(b.subrange(0, p)) == k
}

/// The byte ranges of the target address (field 0), the hop count (field 5)
/// and the hop address (field 6) of a row whose fields are separated by
/// single spaces: `(target_end, count_start, count_end, hop_end)`, where the
/// target is `[0, target_end)`, the count `[count_start, count_end)` and the
/// hop `[count_end + 1, hop_end)`. `None` when the row has fewer than seven
/// spaces, so that the hop address is not closed by one.
pub fn extract_strings_from_row(row: &[u8]) -> (r: Option<(usize, usize, usize, usize)>)
    ensures
        r is None <==> spaces_in(row@) < 7,
        r matches Some(t) ==> {
            &&& is_space_no(row@, t.0 as int, 0)
            &&& is_space_no(row@, t.1 as int - 1, 4)
            &&& is_space_no(row@, t.2 as int, 5)
            &&& is_space_no(row@, t.3 as int, 6)
        },
{
    let n = row.len();
    let mut count: usize = 0;
    let mut target_end: usize = 0;
    let mut count_start: usize = 0;
    let mut count_end: usize = 0;
    let mut i: usize = 0;
    while i < n
        invariant
            n == row@.len(),
            0 <= i <= n,
            count == spaces_in(row@.subrange(0, i as int)),
            count <= 6,
            count > 0 ==> is_space_no(row@, target_end as int, 0),
            count > 4 ==> is_space_no(row@, count_start as int - 1, 4) && count_start >= 1,
            count > 5 ==> is_space_no(row@, count_end as int, 5),
        decreases n - i,
    {
        proof {
            assert(row@.subrange(0, i as int + 1).drop_last() =~= row@.subrange(0, i as int));
        }
        if row[i] == 32 {
            if count == 0 {
                target_end = i;
            } else if count == 4 {
                count_start = i + 1;
            } else if count == 5 {
                count_end = i;
            } else if count == 6 {
                proof {
                    lemma_spaces_prefix(row@, i as int + 1);
                }
                return Some((target_end, count_start, count_end, i));
            }
            count = count + 1;
        }
        i = i + 1;
    }
    proof {
        assert(row@.subrange(0, n as int) =~= row@);
    }
    None
}

proof fn lemma_spaces_prefix(b: Seq<u8>, k: int)
    requires
        0 <= k <= b.len(),
    ensures
        spaces_in(b.subrange(0, k)) <= spaces_in(b),
    decreases b.len(),
{
    if b.len() > 0 {
        if k < b.len() {
            lemma_spaces_prefix(b.drop_last(), k);
            assert(b.drop_last().subrange(0, k) =~= b.subrange(0, k));
        } else {
            assert(b.subrange(0, k) =~= b);
        }
    } else {
        assert(b.subrange(0, k) =~= b);
    }
}

} // verus!
