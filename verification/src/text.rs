//! Small verified text helpers: string equality, decimal parsing and
//! space-splitting, as needed by the SVG `viewBox` reader and the
//! statistics histogram.

use vstd::prelude::*;
use vstd::string::StrSliceExecFns;

verus! {

/// Character-wise string equality.
pub fn str_eq(a: &str, b: &str) -> (r: bool)
    ensures
        r == (a@ == b@),
{
    let n = a.unicode_len();
    let m = b.unicode_len();
    if n != m {
        proof {
            assert(a@ != b@);
        }
        return false;
    }
    let mut i: usize = 0;
    while i < n
        invariant
            n == a@.len(),
            n == b@.len(),
            i <= n,
            forall|j: int| 0 <= j < i ==> a@[j] == b@[j],
        decreases n - i,
    {
        if a.get_char(i) != b.get_char(i) {
            return false;
        }
        i += 1;
    }
    proof {
        assert(a@ =~= b@);
    }
    true
}

/// Whether `c` is a decimal digit.
pub open spec fn is_digit(c: char) -> bool {
    ('0' as u32) <= (c as u32) && (c as u32) <= ('9' as u32)
}

/// The number denoted by a sequence of decimal digits (most significant
/// first).
pub open spec fn digits_val(s: Seq<char>) -> int
    decreases s.len(),
{
    if s.len() == 0 {
        0
    } else {
        digits_val(s.drop_last()) * 10 + ((s.last() as u32) - ('0' as u32))
    }
}

/// What `parse_u32` accepts: a non-empty all-digit string whose value fits
/// in 32 bits.
pub open spec fn parse_u32_spec(s: Seq<char>) -> Option<u32> {
    if s.len() > 0 && (forall|i: int| 0 <= i < s.len() ==> is_digit(#[trigger] s[i]))
        && digits_val(s) <= u32::MAX {
        Some(digits_val(s) as u32)
    } else {
        None
    }
}

/// Appending digits never shrinks the value.
proof fn lemma_digits_val_monotone(s: Seq<char>, i: int)
    requires
        0 <= i <= s.len(),
        forall|j: int| 0 <= j < s.len() ==> is_digit(#[trigger] s[j]),
    ensures
        digits_val(s.subrange(0, i)) <= digits_val(s),
        digits_val(s) >= 0,
    decreases s.len() - i,
{
    if i == s.len() {
        assert(s.subrange(0, i) =~= s);
        lemma_digits_val_nonneg(s);
    } else {
        lemma_digits_val_monotone(s, i + 1);
        let p = s.subrange(0, i);
        let q = s.subrange(0, i + 1);
        assert(q.drop_last() =~= p);
        assert(q.last() == s[i]);
        lemma_digits_val_nonneg(p);
    }
}

/// A digit string denotes a non-negative number.
proof fn lemma_digits_val_nonneg(s: Seq<char>)
    requires
        forall|j: int| 0 <= j < s.len() ==> is_digit(#[trigger] s[j]),
    ensures
        digits_val(s) >= 0,
    decreases s.len(),
{
    if s.len() > 0 {
        assert(forall|j: int| 0 <= j < s.drop_last().len()
            ==> is_digit(#[trigger] s.drop_last()[j]));
        lemma_digits_val_nonneg(s.drop_last());
    }
}

/// Parses a decimal `u32`: accepts exactly the non-empty all-digit strings
/// whose value fits.
pub fn parse_u32(s: &str) -> (r: Option<u32>)
    ensures
        r == parse_u32_spec(s@),
{
    let n = s.unicode_len();
    if n == 0 {
        return None;
    }
    let mut val: u32 = 0;
    let mut i: usize = 0;
    while i < n
        invariant
            n == s@.len(),
            0 < n,
            i <= n,
            forall|j: int| 0 <= j < i ==> is_digit(#[trigger] s@[j]),
            val == digits_val(s@.subrange(0, i as int)),
        decreases n - i,
    {
        let c = s.get_char(i);
        let u = c as u32;
        if u < ('0' as u32) || u > ('9' as u32) {
            return None;
        }
        let d = u - ('0' as u32);
        if val > (u32::MAX - d) / 10 {
            // The value no longer fits; by monotonicity the whole string
            // does not either.
            proof {
                let p = s@.subrange(0, i + 1);
                assert(p.drop_last() =~= s@.subrange(0, i as int));
                assert(p.last() == s@[i as int]);
                assert(digits_val(p) == val * 10 + d);
                if forall|j: int| 0 <= j < s@.len() ==> is_digit(#[trigger] s@[j]) {
                    lemma_digits_val_monotone(s@, i + 1);
                    assert(digits_val(s@) >= digits_val(p));
                    assert(val * 10 + d > u32::MAX) by {
                        assert(val >= (u32::MAX - d) / 10 + 1);
                        assert((((u32::MAX - d) / 10 + 1) * 10 + d) > u32::MAX) by (nonlinear_arith);
                        assert(val * 10 >= ((u32::MAX - d) / 10 + 1) * 10) by (nonlinear_arith)
                            requires val >= (u32::MAX - d) / 10 + 1;
                    }
                }
            }
            return None;
        }
        val = val * 10 + d;
        proof {
            let p = s@.subrange(0, i + 1);
            assert(p.drop_last() =~= s@.subrange(0, i as int));
            assert(p.last() == s@[i as int]);
        }
        i += 1;
    }
    proof {
        assert(s@.subrange(0, n as int) =~= s@);
    }
    Some(val)
}

/// Splitting a string at spaces, keeping empty pieces, as the standard
/// single-character split does.
pub open spec fn split_spaces_spec(s: Seq<char>) -> Seq<Seq<char>>
    decreases s.len(),
{
    if s.len() == 0 {
        seq![s]
    } else if s[0] == ' ' {
        seq![Seq::<char>::empty()] + split_spaces_spec(s.drop_first())
    } else {
        let rest = split_spaces_spec(s.drop_first());
        seq![seq![s[0]] + rest[0]] + rest.drop_first()
    }
}

/// A split has at least one piece.
pub proof fn lemma_split_nonempty(s: Seq<char>)
    ensures
        split_spaces_spec(s).len() >= 1,
    decreases s.len(),
{
    if s.len() > 0 {
        lemma_split_nonempty(s.drop_first());
    }
}

/// A string without spaces is one single piece.
proof fn lemma_split_no_space(s: Seq<char>)
    requires
        forall|j: int| 0 <= j < s.len() ==> s[j] != ' ',
    ensures
        split_spaces_spec(s) == seq![s],
    decreases s.len(),
{
    if s.len() > 0 {
        assert(forall|j: int| 0 <= j < s.drop_first().len()
            ==> #[trigger] s.drop_first()[j] != ' ');
        lemma_split_no_space(s.drop_first());
        lemma_split_nonempty(s.drop_first());
        let rest = split_spaces_spec(s.drop_first());
        assert(rest[0] == s.drop_first());
        assert(seq![s[0]] + s.drop_first() =~= s);
        assert(rest.drop_first() =~= Seq::<Seq<char>>::empty());
        assert(split_spaces_spec(s) =~= seq![s]);
    }
}

/// Splitting at the first space yields the prefix as head piece and the
/// split of the remainder as tail pieces.
proof fn lemma_split_at_first_space(s: Seq<char>, p: int)
    requires
        0 <= p < s.len(),
        s[p] == ' ',
        forall|j: int| 0 <= j < p ==> s[j] != ' ',
    ensures
        split_spaces_spec(s) == seq![s.subrange(0, p)]
            + split_spaces_spec(s.subrange(p + 1, s.len() as int)),
    decreases p,
{
    lemma_split_nonempty(s.drop_first());
    if p == 0 {
        assert(s.subrange(0, 0) =~= Seq::<char>::empty());
        assert(s.subrange(1, s.len() as int) =~= s.drop_first());
        assert(split_spaces_spec(s) =~= seq![s.subrange(0, p)]
            + split_spaces_spec(s.subrange(p + 1, s.len() as int)));
    } else {
        let t = s.drop_first();
        assert(t[p - 1] == ' ');
        assert(forall|j: int| 0 <= j < p - 1 ==> #[trigger] t[j] != ' ');
        lemma_split_at_first_space(t, p - 1);
        let rest = split_spaces_spec(t);
        assert(rest == seq![t.subrange(0, p - 1)]
            + split_spaces_spec(t.subrange(p, t.len() as int)));
        assert(rest[0] == t.subrange(0, p - 1));
        assert(seq![s[0]] + t.subrange(0, p - 1) =~= s.subrange(0, p));
        assert(t.subrange(p, t.len() as int) =~= s.subrange(p + 1, s.len() as int));
        assert(rest.drop_first() =~= split_spaces_spec(s.subrange(p + 1, s.len() as int)));
        assert(split_spaces_spec(s) =~= seq![s.subrange(0, p)]
            + split_spaces_spec(s.subrange(p + 1, s.len() as int)));
    }
}

/// Splits `s` at single spaces into its (possibly empty) pieces.
pub fn split_spaces(s: &str) -> (r: Vec<String>)
    ensures
        r@.map_values(|t: String| t@) == split_spaces_spec(s@),
    decreases s@.len(),
{
    let n = s.unicode_len();
    let mut i: usize = 0;
    let mut space: Option<usize> = None;
    while i < n && space.is_none()
        invariant
            n == s@.len(),
            i <= n,
            match space {
                Some(p) => p < n && s@[p as int] == ' '
                    && (forall|j: int| 0 <= j < p ==> s@[j] != ' ') && i == p,
                None => forall|j: int| 0 <= j < i ==> s@[j] != ' ',
            },
        decreases n - i + (if space.is_none() { 1int } else { 0int }),
    {
        if s.get_char(i) == ' ' {
            space = Some(i);
        } else {
            i += 1;
        }
    }
    match space {
        Some(p) => {
            proof {
                lemma_split_at_first_space(s@, p as int);
            }
            let head = s.substring_char(0, p);
            let tail = s.substring_char(p + 1, n);
            let r = split_spaces(tail);
            let mut out: Vec<String> = Vec::new();
            out.push(head.to_owned());
            let m = r.len();
            let mut k: usize = 0;
            while k < m
                invariant
                    m == r@.len(),
                    k <= m,
                    out@.len() == k + 1,
                    out@[0]@ == s@.subrange(0, p as int),
                    forall|q: int| 0 <= q < k ==> out@[q + 1] == r@[q],
                decreases m - k,
            {
                out.push(r[k].clone());
                k += 1;
            }
            proof {
                assert(out@.map_values(|t: String| t@) =~= split_spaces_spec(s@));
            }
            out
        },
        None => {
            proof {
                lemma_split_no_space(s@);
            }
            let mut out: Vec<String> = Vec::new();
            out.push(s.to_owned());
            proof {
                assert(out@.map_values(|t: String| t@) =~= split_spaces_spec(s@));
            }
            out
        },
    }
}

} // verus!
