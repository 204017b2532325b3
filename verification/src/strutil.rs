//! String machinery shared by the whole crate: splitting on a separator
//! character (used both for virtual paths and for multi-valued tag fields),
//! joining back, and the lemmas relating the two.

use vstd::prelude::*;

verus! {

/// The views of a sequence of owned strings.
pub open spec fn views_of(v: Seq<String>) -> Seq<Seq<char>> {
    v.map_values(|s: String| s@)
}

/// Split `s` on the separator `sep`. Splitting the empty string yields one
/// empty piece; every separator occurrence starts a new piece, so
/// `"a//b"` has an empty middle piece.
pub open spec fn split_on(s: Seq<char>, sep: char) -> Seq<Seq<char>>
    decreases s.len(),
{
    if s.len() == 0 {
        seq![Seq::<char>::empty()]
    } else if s[0] == sep {
        seq![Seq::<char>::empty()] + split_on(s.skip(1), sep)
    } else {
        let rest = split_on(s.skip(1), sep);
        seq![seq![s[0]] + rest[0]] + rest.skip(1)
    }
}

/// Join pieces with the separator; inverse of `split_on` on separator-free pieces.
pub open spec fn join_with(pp: Seq<Seq<char>>, sep: char) -> Seq<char>
    decreases pp.len(),
{
    if pp.len() == 0 {
        Seq::<char>::empty()
    } else if pp.len() == 1 {
        pp[0]
    } else {
        pp[0] + seq![sep] + join_with(pp.skip(1), sep)
    }
}

/// `s` contains no occurrence of `sep`.
pub open spec fn sep_free(s: Seq<char>, sep: char) -> bool {
    forall|i: int| 0 <= i < s.len() ==> s[i] != sep
}

pub proof fn lemma_split_len(s: Seq<char>, sep: char)
    ensures
        split_on(s, sep).len() >= 1,
    decreases s.len(),
{
    if s.len() == 0 {
    } else {
        lemma_split_len(s.skip(1), sep);
    }
}

/// A separator-free string splits into itself alone.
pub proof fn lemma_split_sep_free(s: Seq<char>, sep: char)
    requires
        sep_free(s, sep),
    ensures
        split_on(s, sep) =~~= seq![s],
    decreases s.len(),
{
    if s.len() == 0 {
        assert(split_on(s, sep) =~~= seq![s]);
    } else {
        assert(s[0] != sep);
        assert(sep_free(s.skip(1), sep));
        lemma_split_sep_free(s.skip(1), sep);
        assert(seq![s[0]] + s.skip(1) =~= s);
    }
}

/// Splitting distributes over a separator occurrence.
pub proof fn lemma_split_concat(a: Seq<char>, b: Seq<char>, sep: char)
    ensures
        split_on(a + seq![sep] + b, sep) =~~= split_on(a, sep) + split_on(b, sep),
    decreases a.len(),
{
    let whole = a + seq![sep] + b;
    if a.len() == 0 {
        assert(whole =~= seq![sep] + b);
        assert(whole[0] == sep);
        assert(whole.skip(1) =~= b);
        assert(split_on(whole, sep) =~~= seq![Seq::<char>::empty()] + split_on(b, sep));
    } else {
        lemma_split_concat(a.skip(1), b, sep);
        lemma_split_len(a.skip(1), sep);
        lemma_split_len(b, sep);
        assert(whole[0] == a[0]);
        assert(whole.skip(1) =~= a.skip(1) + seq![sep] + b);
        if a[0] == sep {
            assert(split_on(whole, sep) =~~= seq![Seq::<char>::empty()] + split_on(whole.skip(1), sep));
        } else {
            let rest = split_on(whole.skip(1), sep);
            let ra = split_on(a.skip(1), sep);
            assert(rest =~~= ra + split_on(b, sep));
            assert(rest[0] == ra[0]);
            assert(rest.skip(1) =~~= ra.skip(1) + split_on(b, sep));
        }
    }
}

/// Every piece a split produces is separator-free.
pub proof fn lemma_split_pieces_sep_free(s: Seq<char>, sep: char)
    ensures
        forall|i: int| 0 <= i < split_on(s, sep).len() ==> sep_free(#[trigger] split_on(s, sep)[i], sep),
    decreases s.len(),
{
    if s.len() == 0 {
    } else if s[0] == sep {
        lemma_split_pieces_sep_free(s.skip(1), sep);
    } else {
        lemma_split_pieces_sep_free(s.skip(1), sep);
        lemma_split_len(s.skip(1), sep);
        let rest = split_on(s.skip(1), sep);
        assert forall|i: int| 0 <= i < split_on(s, sep).len() implies sep_free(
            #[trigger] split_on(s, sep)[i],
            sep,
        ) by {
            if i == 0 {
                assert(sep_free(rest[0], sep));
                assert forall|j: int| 0 <= j < (seq![s[0]] + rest[0]).len() implies (seq![s[0]]
                    + rest[0])[j] != sep by {
                    if j > 0 {
                        assert((seq![s[0]] + rest[0])[j] == rest[0][j - 1]);
                    }
                }
            } else {
                assert(split_on(s, sep)[i] == rest[i]);
            }
        }
    }
}

/// Joining what a split produced gives the original string back.
pub proof fn lemma_join_split(s: Seq<char>, sep: char)
    ensures
        join_with(split_on(s, sep), sep) =~= s,
    decreases s.len(),
{
    if s.len() == 0 {
    } else if s[0] == sep {
        lemma_join_split(s.skip(1), sep);
        lemma_split_len(s.skip(1), sep);
        let parts = split_on(s, sep);
        assert(parts.len() >= 2);
        assert(parts[0] =~= Seq::<char>::empty());
        assert(parts.skip(1) =~~= split_on(s.skip(1), sep));
        assert(join_with(parts, sep) =~= parts[0] + seq![sep] + join_with(parts.skip(1), sep));
        assert(join_with(parts, sep) =~= seq![sep] + s.skip(1));
        assert(seq![sep] + s.skip(1) =~= s);
    } else {
        lemma_join_split(s.skip(1), sep);
        lemma_split_len(s.skip(1), sep);
        let rest = split_on(s.skip(1), sep);
        let parts = split_on(s, sep);
        if rest.len() == 1 {
            assert(parts.len() == 1);
            assert(parts[0] =~= seq![s[0]] + rest[0]);
            assert(join_with(rest, sep) =~= rest[0]);
            assert(seq![s[0]] + s.skip(1) =~= s);
        } else {
            assert(parts.len() >= 2);
            assert(parts[0] == seq![s[0]] + rest[0]);
            assert(parts.skip(1) =~~= rest.skip(1));
            assert(join_with(parts, sep) =~= parts[0] + seq![sep] + join_with(parts.skip(1), sep));
            assert(join_with(rest, sep) =~= rest[0] + seq![sep] + join_with(rest.skip(1), sep));
            assert(parts[0] + seq![sep] + join_with(rest.skip(1), sep) =~= seq![s[0]] + (rest[0]
                + seq![sep] + join_with(rest.skip(1), sep)));
            assert(seq![s[0]] + s.skip(1) =~= s);
        }
    }
}

/// Splitting a join of separator-free pieces gives the pieces back.
pub proof fn lemma_split_join(pp: Seq<Seq<char>>, sep: char)
    requires
        pp.len() >= 1,
        forall|i: int| 0 <= i < pp.len() ==> sep_free(#[trigger] pp[i], sep),
    ensures
        split_on(join_with(pp, sep), sep) =~~= pp,
    decreases pp.len(),
{
    if pp.len() == 1 {
        lemma_split_sep_free(pp[0], sep);
        assert(join_with(pp, sep) == pp[0]);
        assert(seq![pp[0]] =~~= pp);
    } else {
        lemma_split_join(pp.skip(1), sep);
        lemma_split_sep_free(pp[0], sep);
        lemma_split_concat(pp[0], join_with(pp.skip(1), sep), sep);
        assert(join_with(pp, sep) =~= pp[0] + seq![sep] + join_with(pp.skip(1), sep));
        assert(split_on(join_with(pp, sep), sep) =~~= split_on(pp[0], sep) + split_on(
            join_with(pp.skip(1), sep),
            sep,
        ));
        assert(seq![pp[0]] + pp.skip(1) =~~= pp);
    }
}

/// Split an owned string on a separator character; the executable counterpart
/// of `split_on`.
pub fn split_string(s: &str, sep: char) -> (r: Vec<String>)
    ensures
        views_of(r@) =~~= split_on(s@, sep),
        r@.len() >= 1,
{
    let n = s.unicode_len();
    let mut parts: Vec<String> = Vec::new();
    let mut start: usize = 0;
    let mut i: usize = 0;
    proof {
        assert(s@.skip(0) =~= s@);
    }
    while i < n
        invariant
            start <= i <= n,
            n == s@.len(),
            split_on(s@, sep) =~~= views_of(parts@) + split_on(s@.skip(start as int), sep),
            forall|j: int| start <= j < i ==> s@[j] != sep,
        decreases n - i,
    {
        if s.get_char(i) == sep {
            let piece = s.substring_char(start, i);
            let piece_owned = piece.to_owned();
            proof {
                let tail = s@.skip(start as int);
                assert(tail =~= s@.subrange(start as int, i as int) + seq![sep] + s@.skip(
                    i as int + 1,
                ));
                lemma_split_concat(
                    s@.subrange(start as int, i as int),
                    s@.skip(i as int + 1),
                    sep,
                );
                lemma_split_sep_free(s@.subrange(start as int, i as int), sep);
                assert(views_of(parts@.push(piece_owned)) =~~= views_of(parts@) + seq![
                    piece_owned@,
                ]);
            }
            parts.push(piece_owned);
            start = i + 1;
        }
        i += 1;
    }
    let piece = s.substring_char(start, n);
    let piece_owned = piece.to_owned();
    proof {
        let tail = s@.skip(start as int);
        assert(tail =~= s@.subrange(start as int, n as int));
        lemma_split_sep_free(tail, sep);
        assert(views_of(parts@.push(piece_owned)) =~~= views_of(parts@) + seq![piece_owned@]);
    }
    parts.push(piece_owned);
    proof {
        lemma_split_len(s@, sep);
    }
    parts
}

/// Character-for-character string equality.
pub fn eq_str(a: &str, b: &str) -> (r: bool)
    ensures
        r == (a@ == b@),
{
    let na = a.unicode_len();
    let nb = b.unicode_len();
    if na != nb {
        return false;
    }
    let mut i: usize = 0;
    while i < na
        invariant
            i <= na,
            na == a@.len(),
            na == b@.len(),
            forall|j: int| 0 <= j < i ==> a@[j] == b@[j],
        decreases na - i,
    {
        if a.get_char(i) != b.get_char(i) {
            return false;
        }
        i += 1;
    }
    proof {
        assert(a@ =~= b@);
    }
    true
}

/// `needle` occurs contiguously inside `hay`. The empty needle occurs in
/// every string.
pub open spec fn contains_seq(hay: Seq<char>, needle: Seq<char>) -> bool {
    exists|k: int|
        0 <= k && k + needle.len() <= hay.len() && #[trigger] hay.subrange(k, k + needle.len())
            == needle
}

/// `needle` matches `hay` exactly at offset `k`.
fn matches_at(hay: &str, needle: &str, k: usize) -> (r: bool)
    requires
        k + needle@.len() <= hay@.len(),
        hay@.len() <= usize::MAX,
    ensures
        r == (hay@.subrange(k as int, k as int + needle@.len()) == needle@),
{
    let n = needle.unicode_len();
    let mut j: usize = 0;
    while j < n
        invariant
            j <= n,
            n == needle@.len(),
            k + n <= hay@.len(),
            hay@.len() <= usize::MAX,
            forall|t: int| 0 <= t < j ==> hay@[k + t] == needle@[t],
        decreases n - j,
    {
        if hay.get_char(k + j) != needle.get_char(j) {
            proof {
                let sub = hay@.subrange(k as int, k as int + needle@.len());
                assert(sub[j as int] == hay@[k + j]);
            }
            return false;
        }
        j += 1;
    }
    proof {
        assert(hay@.subrange(k as int, k as int + needle@.len()) =~= needle@);
    }
    true
}

/// Substring search; the executable counterpart of `contains_seq`.
pub fn str_contains(hay: &str, needle: &str) -> (r: bool)
    ensures
        r == contains_seq(hay@, needle@),
{
    let nh = hay.unicode_len();
    let nn = needle.unicode_len();
    if nn > nh {
        return false;
    }
    if nn == 0 {
        proof {
            assert(hay@.subrange(0, 0 + needle@.len() as int) =~= needle@);
            assert(contains_seq(hay@, needle@));
        }
        return true;
    }
    let mut k: usize = 0;
    while k <= nh - nn
        invariant
            nh == hay@.len(),
            nn == needle@.len(),
            1 <= nn <= nh,
            k <= nh - nn + 1,
            forall|t: int|
                0 <= t < k ==> #[trigger] hay@.subrange(t, t + needle@.len()) != needle@,
        decreases nh - k,
    {
        if matches_at(hay, needle, k) {
            proof {
                assert(hay@.subrange(k as int, k as int + needle@.len()) == needle@);
                assert(contains_seq(hay@, needle@));
            }
            return true;
        }
        k += 1;
    }
    false
}

/// Names what `str::to_lowercase` returns: a pure function of the characters.
pub uninterp spec fn lower_of(s: Seq<char>) -> Seq<char>;

/// Relies on `str::to_lowercase`: the result depends on the input characters
/// alone, and lowercasing the empty string gives the empty string.
#[verifier::external_body]
pub(crate) fn lowercase(s: &str) -> (r: String)
    ensures
        r@ == lower_of(s@),
        s@.len() == 0 ==> r@.len() == 0,
{
    s.to_lowercase()
}

/// The decimal digit character for `d`.
pub open spec fn digit_char(d: int) -> char {
    if d == 0 {
        '0'
    } else if d == 1 {
        '1'
    } else if d == 2 {
        '2'
    } else if d == 3 {
        '3'
    } else if d == 4 {
        '4'
    } else if d == 5 {
        '5'
    } else if d == 6 {
        '6'
    } else if d == 7 {
        '7'
    } else if d == 8 {
        '8'
    } else {
        '9'
    }
}

/// The decimal representation of `n`, most significant digit first.
pub open spec fn dec_of(n: nat) -> Seq<char>
    decreases n,
{
    if n < 10 {
        seq![digit_char(n as int)]
    } else {
        dec_of(n / 10) + seq![digit_char((n % 10) as int)]
    }
}

/// Digit characters of the digit sequence `ds`, read back to front.
spec fn rev_digits(ds: Seq<u64>) -> Seq<char>
    decreases ds.len(),
{
    if ds.len() == 0 {
        Seq::<char>::empty()
    } else {
        rev_digits(ds.skip(1)) + seq![digit_char(ds[0] as int)]
    }
}

proof fn lemma_rev_digits_push(ds: Seq<u64>, d: u64)
    ensures
        rev_digits(ds.push(d)) =~= seq![digit_char(d as int)] + rev_digits(ds),
    decreases ds.len(),
{
    reveal_with_fuel(rev_digits, 3);
    let p = ds.push(d);
    if ds.len() == 0 {
        assert(p.skip(1) =~= Seq::<u64>::empty());
        assert(rev_digits(p) == rev_digits(p.skip(1)) + seq![digit_char(p[0] as int)]);
        assert(rev_digits(Seq::<u64>::empty()) == Seq::<char>::empty());
    } else {
        assert(p.skip(1) =~= ds.skip(1).push(d));
        lemma_rev_digits_push(ds.skip(1), d);
        assert(p[0] == ds[0]);
        assert(rev_digits(p) == rev_digits(p.skip(1)) + seq![digit_char(p[0] as int)]);
        assert(rev_digits(p.skip(1)) =~= seq![digit_char(d as int)] + rev_digits(ds.skip(1)));
        assert(rev_digits(ds) == rev_digits(ds.skip(1)) + seq![digit_char(ds[0] as int)]);
        assert(seq![digit_char(d as int)] + rev_digits(ds) =~= (seq![digit_char(d as int)]
            + rev_digits(ds.skip(1))) + seq![digit_char(ds[0] as int)]);
    }
}

/// Format `x` in decimal; the executable counterpart of `dec_of`.
pub fn u64_to_decimal(x: u64) -> (r: String)
    ensures
        r@ == dec_of(x as nat),
{
    let digit_chars = "0123456789";
    proof {
        reveal_strlit("0123456789");
        assert(digit_chars@.len() == 10);
        assert forall|d: int| 0 <= d < 10 implies digit_chars@[d] == digit_char(d) by {
            reveal_strlit("0123456789");
        }
    }
    let mut digits: Vec<u64> = Vec::new();
    let mut v = x;
    let d0 = v % 10;
    proof {
        lemma_rev_digits_push(digits@, d0);
    }
    digits.push(d0);
    v = v / 10;
    while v > 0
        invariant
            dec_of(x as nat) =~= if v > 0 {
                dec_of(v as nat) + rev_digits(digits@)
            } else {
                rev_digits(digits@)
            },
            digits@.len() >= 1,
            forall|j: int| 0 <= j < digits@.len() ==> digits@[j] < 10,
        decreases v,
    {
        let d = v % 10;
        proof {
            lemma_rev_digits_push(digits@, d);
        }
        digits.push(d);
        v = v / 10;
    }
    let mut out = String::new();
    let mut i = digits.len();
    proof {
        assert(digits@.skip(i as int) =~= Seq::<u64>::empty());
    }
    while i > 0
        invariant
            i <= digits@.len(),
            digit_chars@.len() == 10,
            forall|d: int| 0 <= d < 10 ==> digit_chars@[d] == digit_char(d),
            forall|j: int| 0 <= j < digits@.len() ==> digits@[j] < 10,
            out@ =~= rev_digits(digits@.skip(i as int)),
        decreases i,
    {
        i -= 1;
        let d = digits[i];
        let ds = digit_chars.substring_char(d as usize, d as usize + 1);
        proof {
            assert(ds@ =~= seq![digit_char(d as int)]);
            assert(digits@.skip(i as int).skip(1) =~= digits@.skip(i as int + 1));
        }
        out.append(ds);
    }
    proof {
        assert(digits@.skip(0) =~= digits@);
    }
    out
}

} // verus!
