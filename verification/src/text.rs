//! Plain-text utilities for the note-list parser: separator splitting,
//! decimal digit strings, and character-wise string equality.

use vstd::prelude::*;

verus! {

/// Split `s` at every occurrence of `sep`.
///
/// The result always has one piece more than `s` has separators; an empty
/// input gives one empty piece.
pub open spec fn split_by(s: Seq<char>, sep: char) -> Seq<Seq<char>>
    decreases s.len(),
{
    if s.len() == 0 {
        seq![Seq::<char>::empty()]
    } else if s.last() == sep {
        split_by(s.drop_last(), sep).push(Seq::<char>::empty())
    } else {
        let p = split_by(s.drop_last(), sep);
        p.update(p.len() - 1, p.last().push(s.last()))
    }
}

pub proof fn lemma_split_by_len(s: Seq<char>, sep: char)
    ensures
        split_by(s, sep).len() >= 1,
    decreases s.len(),
{
    if s.len() > 0 {
        lemma_split_by_len(s.drop_last(), sep);
    }
}

/// A separator-free string is one single piece.
pub proof fn lemma_split_by_whole(s: Seq<char>, sep: char)
    requires
        forall|i: int| 0 <= i < s.len() ==> s[i] != sep,
    ensures
        split_by(s, sep) =~~= seq![s],
    decreases s.len(),
{
    if s.len() == 0 {
        assert(split_by(s, sep) =~~= seq![s]);
    } else {
        lemma_split_by_whole(s.drop_last(), sep);
        assert(split_by(s, sep) =~~= seq![s]);
    }
}

/// Splitting distributes over a separator between two strings.
pub proof fn lemma_split_by_concat(s1: Seq<char>, s2: Seq<char>, sep: char)
    ensures
        split_by(s1 + seq![sep] + s2, sep) =~~= split_by(s1, sep) + split_by(s2, sep),
    decreases s2.len(),
{
    lemma_split_by_len(s1, sep);
    lemma_split_by_len(s2, sep);
    if s2.len() == 0 {
        assert((s1 + seq![sep] + s2).drop_last() =~= s1);
        assert((s1 + seq![sep] + s2).last() == sep);
        assert(split_by(s1 + seq![sep] + s2, sep) =~~= split_by(s1, sep) + split_by(s2, sep));
    } else {
        lemma_split_by_concat(s1, s2.drop_last(), sep);
        assert((s1 + seq![sep] + s2).drop_last() =~= s1 + seq![sep] + s2.drop_last());
        lemma_split_by_len(s2.drop_last(), sep);
        if s2.last() == sep {
            assert(split_by(s1 + seq![sep] + s2, sep) =~~= split_by(s1, sep) + split_by(s2, sep));
        } else {
            let p = split_by(s1, sep) + split_by(s2.drop_last(), sep);
            assert(p.len() >= 2);
            assert(p.last() == split_by(s2.drop_last(), sep).last());
            assert(split_by(s1 + seq![sep] + s2, sep) =~~= split_by(s1, sep) + split_by(s2, sep));
        }
    }
}

/// First position of `sep` in `s` at or after `from`, or the length of `s`.
pub fn find_next(s: &str, sep: char, from: usize) -> (r: usize)
    requires
        from <= s@.len(),
    ensures
        from <= r <= s@.len(),
        forall|k: int| from <= k < r ==> s@[k] != sep,
        r < s@.len() ==> s@[r as int] == sep,
{
    let n = s.unicode_len();
    let mut i = from;
    while i < n
        invariant
            from <= i <= n,
            n == s@.len(),
            forall|k: int| from <= k < i ==> s@[k] != sep,
        decreases n - i,
    {
        if s.get_char(i) == sep {
            return i;
        }
        i += 1;
    }
    i
}

/// Split a string at every occurrence of `sep`, as `split_by` describes.
pub fn split_str(s: &str, sep: char) -> (r: Vec<String>)
    ensures
        r@.map_values(|t: String| t@) =~~= split_by(s@, sep),
{
    let n = s.unicode_len();
    let mut out: Vec<String> = Vec::new();
    let mut pos: usize = 0;
    proof {
        assert(s@.skip(0) =~= s@);
        assert(out@.map_values(|t: String| t@) =~= Seq::<Seq<char>>::empty());
    }
    loop
        invariant
            pos <= n,
            n == s@.len(),
            split_by(s@, sep) =~~= out@.map_values(|t: String| t@) + split_by(
                s@.skip(pos as int),
                sep,
            ),
        decreases n - pos,
    {
        let j = find_next(s, sep, pos);
        let piece = s.substring_char(pos, j).to_owned();
        proof {
            lemma_split_by_whole(s@.subrange(pos as int, j as int), sep);
        }
        if j < n {
            out.push(piece);
            proof {
                assert(s@.skip(pos as int) =~= s@.subrange(pos as int, j as int) + seq![sep]
                    + s@.skip(j as int + 1));
                lemma_split_by_concat(
                    s@.subrange(pos as int, j as int),
                    s@.skip(j as int + 1),
                    sep,
                );
            }
            pos = j + 1;
        } else {
            out.push(piece);
            proof {
                assert(s@.skip(pos as int) =~= s@.subrange(pos as int, j as int));
            }
            return out;
        }
    }
}

/// `l` with one trailing carriage return removed, if it has one.
pub open spec fn strip_cr_spec(l: Seq<char>) -> Seq<char> {
    if l.len() > 0 && l.last() == '\r' {
        l.drop_last()
    } else {
        l
    }
}

/// Drop a single trailing carriage return.
pub fn strip_cr(l: &str) -> (r: &str)
    ensures
        r@ == strip_cr_spec(l@),
{
    let n = l.unicode_len();
    if n > 0 && l.get_char(n - 1) == '\r' {
        let r = l.substring_char(0, n - 1);
        proof {
            assert(l@.subrange(0, n - 1) =~= l@.drop_last());
        }
        r
    } else {
        l
    }
}

/// Character-wise string equality.
pub fn str_eq(a: &str, b: &str) -> (r: bool)
    ensures
        r == (a@ == b@),
{
    let na = a.unicode_len();
    let nb = b.unicode_len();
    if na != nb {
        return false;
    }
    let mut i: usize = 0;
    while i < na
        invariant
            i <= na,
            na == a@.len(),
            na == b@.len(),
            forall|k: int| 0 <= k < i ==> a@[k] == b@[k],
        decreases na - i,
    {
        if a.get_char(i) != b.get_char(i) {
            return false;
        }
        i += 1;
    }
    proof {
        assert(a@ =~= b@);
    }
    true
}

/// Decimal digits.
pub open spec fn is_digit(c: char) -> bool {
    '0' <= c && c <= '9'
}

/// The numeric value of one decimal digit.
pub open spec fn digit_val(c: char) -> nat {
    (c as nat - '0' as nat) as nat
}

/// Every character of `s` is a decimal digit.
pub open spec fn all_digits(s: Seq<char>) -> bool {
    forall|i: int| 0 <= i < s.len() ==> is_digit(s[i])
}

/// The value of a decimal digit string, most significant digit first.
pub open spec fn dec_val(s: Seq<char>) -> nat
    decreases s.len(),
{
    if s.len() == 0 {
        0
    } else {
        dec_val(s.drop_last()) * 10 + digit_val(s.last())
    }
}

/// Every prefix of a digit string has a value no larger than the whole.
pub proof fn lemma_dec_val_prefix(s: Seq<char>, i: int)
    requires
        0 <= i <= s.len(),
    ensures
        dec_val(s.take(i)) <= dec_val(s),
    decreases s.len(),
{
    if i < s.len() {
        assert(s.drop_last().take(i) =~= s.take(i));
        lemma_dec_val_prefix(s.drop_last(), i);
    } else {
        assert(s.take(i) =~= s);
    }
}

/// A digit string's value is below ten to the power of its length.
pub proof fn lemma_dec_val_bound(s: Seq<char>)
    requires
        all_digits(s),
    ensures
        dec_val(s) < pow10(s.len()),
    decreases s.len(),
{
    if s.len() > 0 {
        assert(all_digits(s.drop_last())) by {
            assert(forall|i: int| 0 <= i < s.len() - 1 ==> s.drop_last()[i] == s[i]);
        }
        lemma_dec_val_bound(s.drop_last());
        assert(digit_val(s.last()) <= 9);
    }
}

/// Ten to the power `n`.
pub open spec fn pow10(n: nat) -> nat
    decreases n,
{
    if n == 0 {
        1
    } else {
        10 * pow10((n - 1) as nat)
    }
}

/// Whether every character of `s` is a decimal digit.
pub fn check_all_digits(s: &str) -> (r: bool)
    ensures
        r == all_digits(s@),
{
    let n = s.unicode_len();
    let mut i: usize = 0;
    while i < n
        invariant
            i <= n,
            n == s@.len(),
            forall|k: int| 0 <= k < i ==> is_digit(s@[k]),
        decreases n - i,
    {
        let c = s.get_char(i);
        if c < '0' || c > '9' {
            return false;
        }
        i += 1;
    }
    true
}

/// Parse a decimal digit string into a `u64`.
///
/// Returns `Some` exactly for the nonempty all-digit strings whose value fits.
pub fn parse_u64(s: &str) -> (r: Option<u64>)
    ensures
        r is Some <==> (s@.len() > 0 && all_digits(s@) && dec_val(s@) <= u64::MAX),
        r is Some ==> r->0 == dec_val(s@),
{
    let n = s.unicode_len();
    if n == 0 {
        return None;
    }
    let mut acc: u64 = 0;
    let mut i: usize = 0;
    while i < n
        invariant
            i <= n,
            n == s@.len(),
            n > 0,
            all_digits(s@.take(i as int)),
            acc == dec_val(s@.take(i as int)),
        decreases n - i,
    {
        let c = s.get_char(i);
        if c < '0' || c > '9' {
            return None;
        }
        let d: u64 = (c as u32 - '0' as u32) as u64;
        if acc > (u64::MAX - d) / 10 {
            proof {
                assert(s@.take(i as int + 1).drop_last() =~= s@.take(i as int));
                assert(dec_val(s@.take(i as int + 1)) > u64::MAX);
                lemma_dec_val_prefix(s@, i as int + 1);
            }
            return None;
        }
        acc = acc * 10 + d;
        proof {
            assert(s@.take(i as int + 1).drop_last() =~= s@.take(i as int));
        }
        i += 1;
    }
    proof {
        assert(s@.take(n as int) =~= s@);
    }
    Some(acc)
}

} // verus!
