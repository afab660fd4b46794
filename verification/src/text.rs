//! Character-sequence utilities: substring search, prefix/suffix tests and
//! textual replacement, with exact specifications over `Seq<char>`.

use vstd::prelude::*;

verus! {

/// True when `sub` occurs in `s` starting at index `i`.
pub open spec fn occurs_at(s: Seq<char>, sub: Seq<char>, i: int) -> bool {
    0 <= i && i + sub.len() <= s.len() && s.subrange(i, i + sub.len() as int) == sub
}

/// True when `sub` occurs somewhere in `s`.
pub open spec fn contains_seq(s: Seq<char>, sub: Seq<char>) -> bool {
    exists|i: int| occurs_at(s, sub, i)
}

/// True when `p` is a prefix of `s`.
pub open spec fn starts_with_seq(s: Seq<char>, p: Seq<char>) -> bool {
    p.len() <= s.len() && s.subrange(0, p.len() as int) == p
}

/// True when `p` is a suffix of `s`.
pub open spec fn ends_with_seq(s: Seq<char>, p: Seq<char>) -> bool {
    p.len() <= s.len() && s.subrange(s.len() - p.len(), s.len() as int) == p
}

/// The characters of a string as a vector, in order.
pub fn to_chars(s: &str) -> (r: Vec<char>)
    ensures
        r@ == s@,
{
    let n: usize = s.unicode_len();
    let mut r: Vec<char> = Vec::new();
    let mut i: usize = 0;
    while i < n
        invariant
            n == s@.len(),
            i <= n,
            r@ == s@.subrange(0, i as int),
        decreases n - i,
    {
        r.push(s.get_char(i));
        proof {
            assert(r@ =~= s@.subrange(0, i + 1 as int));
        }
        i = i + 1;
    }
    proof {
        assert(r@ =~= s@);
    }
    r
}

/// Builds a `String` from a vector of characters.
///
/// Relies on `String: FromIterator<char>`: collecting characters yields the
/// string with exactly those characters in order.
#[verifier::external_body]
pub fn from_chars(v: &Vec<char>) -> (r: String)
    ensures
        r@ == v@,
{
    v.iter().collect()
}

/// Character-for-character equality of two vectors.
pub fn chars_eq(a: &Vec<char>, b: &Vec<char>) -> (r: bool)
    ensures
        r == (a@ == b@),
{
    if a.len() != b.len() {
        proof {
            assert(a@ != b@);
        }
        return false;
    }
    let n: usize = a.len();
    let mut i: usize = 0;
    while i < n
        invariant
            n == a@.len() && n == b@.len(),
            i <= n,
            forall|j: int| 0 <= j < i ==> a@[j] == b@[j],
        decreases n - i,
    {
        if a[i] != b[i] {
            return false;
        }
        i = i + 1;
    }
    proof {
        assert(a@ =~= b@);
    }
    true
}

/// True when `sub` occurs in `s` at index `i`.
pub fn matches_at(s: &Vec<char>, sub: &Vec<char>, i: usize) -> (r: bool)
    requires
        i + sub@.len() <= s@.len(),
    ensures
        r == occurs_at(s@, sub@, i as int),
{
    let m: usize = sub.len();
    let n: usize = s.len();
    let mut j: usize = 0;
    while j < m
        invariant
            m == sub@.len(),
            n == s@.len(),
            i + m <= n,
            j <= m,
            forall|k: int| 0 <= k < j ==> s@[i + k] == sub@[k],
        decreases m - j,
    {
        if s[i + j] != sub[j] {
            proof {
                assert(s@.subrange(i as int, i + m) != sub@) by {
                    assert(s@.subrange(i as int, i + m)[j as int] == s@[i + j]);
                }
            }
            return false;
        }
        j = j + 1;
    }
    proof {
        assert(s@.subrange(i as int, i + m) =~= sub@);
    }
    true
}

/// True when `sub` occurs anywhere in `s`.
pub fn contains_chars(s: &Vec<char>, sub: &Vec<char>) -> (r: bool)
    ensures
        r == contains_seq(s@, sub@),
{
    if sub.len() == 0 {
        proof {
            assert(s@.subrange(0, 0) =~= sub@);
            assert(occurs_at(s@, sub@, 0));
        }
        return true;
    }
    if sub.len() > s.len() {
        return false;
    }
    let n: usize = s.len();
    let m: usize = sub.len();
    let last: usize = n - m;
    let mut i: usize = 0;
    while i <= last
        invariant
            n == s@.len(),
            m == sub@.len(),
            1 <= m <= n,
            last == n - m,
            i <= last + 1,
            forall|j: int| 0 <= j < i ==> !occurs_at(s@, sub@, j),
        decreases last + 1 - i,
    {
        if matches_at(s, sub, i) {
            return true;
        }
        i = i + 1;
    }
    proof {
        assert(forall|j: int| occurs_at(s@, sub@, j) ==> 0 <= j <= last);
    }
    false
}

/// True when `p` is a prefix of `s`.
pub fn starts_with_chars(s: &Vec<char>, p: &Vec<char>) -> (r: bool)
    ensures
        r == starts_with_seq(s@, p@),
{
    if p.len() > s.len() {
        return false;
    }
    matches_at(s, p, 0)
}

/// True when `p` is a suffix of `s`.
pub fn ends_with_chars(s: &Vec<char>, p: &Vec<char>) -> (r: bool)
    ensures
        r == ends_with_seq(s@, p@),
{
    if p.len() > s.len() {
        return false;
    }
    let r = matches_at(s, p, s.len() - p.len());
    proof {
        assert(occurs_at(s@, p@, s@.len() - p@.len()) == ends_with_seq(s@, p@));
    }
    r
}

/// `s` with every non-overlapping occurrence of `from` (scanned left to
/// right) replaced by `to`; `s` unchanged when `from` is empty.
pub open spec fn replace_all_seq(s: Seq<char>, from: Seq<char>, to: Seq<char>) -> Seq<char>
    decreases s.len(),
{
    if from.len() == 0 || s.len() < from.len() {
        s
    } else if starts_with_seq(s, from) {
        to + replace_all_seq(s.subrange(from.len() as int, s.len() as int), from, to)
    } else {
        seq![s[0]] + replace_all_seq(s.subrange(1, s.len() as int), from, to)
    }
}

proof fn lemma_replace_step_match(s: Seq<char>, from: Seq<char>, to: Seq<char>, i: int)
    requires
        1 <= from.len(),
        occurs_at(s, from, i),
    ensures
        replace_all_seq(s.subrange(i, s.len() as int), from, to) == to + replace_all_seq(
            s.subrange(i + from.len(), s.len() as int),
            from,
            to,
        ),
{
    let rest = s.subrange(i, s.len() as int);
    assert(rest.subrange(0, from.len() as int) =~= s.subrange(i, i + from.len()));
    assert(starts_with_seq(rest, from));
    assert(rest.subrange(from.len() as int, rest.len() as int) =~= s.subrange(
        i + from.len(),
        s.len() as int,
    ));
}

proof fn lemma_replace_step_nomatch(s: Seq<char>, from: Seq<char>, to: Seq<char>, i: int)
    requires
        1 <= from.len(),
        0 <= i < s.len(),
        !occurs_at(s, from, i),
    ensures
        replace_all_seq(s.subrange(i, s.len() as int), from, to) == seq![s[i]]
            + replace_all_seq(s.subrange(i + 1, s.len() as int), from, to),
{
    let rest = s.subrange(i, s.len() as int);
    let tail = s.subrange(i + 1, s.len() as int);
    assert(rest[0] == s[i]);
    assert(rest.subrange(1, rest.len() as int) =~= tail);
    if rest.len() < from.len() {
        assert(replace_all_seq(rest, from, to) == rest);
        assert(replace_all_seq(tail, from, to) == tail);
        assert(rest =~= seq![s[i]] + tail);
    } else {
        assert(!starts_with_seq(rest, from)) by {
            if starts_with_seq(rest, from) {
                assert(rest.subrange(0, from.len() as int) =~= s.subrange(i, i + from.len()));
                assert(occurs_at(s, from, i));
            }
        }
    }
}

/// Replaces every non-overlapping occurrence of `from` in `s` by `to`,
/// scanning left to right.
pub fn replace_all_chars(s: &Vec<char>, from: &Vec<char>, to: &Vec<char>) -> (r: Vec<char>)
    ensures
        r@ == replace_all_seq(s@, from@, to@),
{
    let mut out: Vec<char> = Vec::new();
    if from.len() == 0 {
        let mut i: usize = 0;
        while i < s.len()
            invariant
                i <= s@.len(),
                out@ == s@.subrange(0, i as int),
            decreases s@.len() - i,
        {
            out.push(s[i]);
            proof {
                assert(out@ =~= s@.subrange(0, i + 1 as int));
            }
            i = i + 1;
        }
        proof {
            assert(out@ =~= s@);
        }
        return out;
    }
    let n: usize = s.len();
    let m: usize = from.len();
    let mut i: usize = 0;
    proof {
        assert(s@.subrange(0, n as int) =~= s@);
        assert(out@ + replace_all_seq(s@, from@, to@) =~= replace_all_seq(s@, from@, to@));
    }
    while i < n
        invariant
            n == s@.len(),
            m == from@.len(),
            m >= 1,
            i <= n,
            replace_all_seq(s@, from@, to@) == out@ + replace_all_seq(
                s@.subrange(i as int, n as int),
                from@,
                to@,
            ),
        decreases n - i,
    {
        if m <= n - i && matches_at(s, from, i) {
            proof {
                lemma_replace_step_match(s@, from@, to@, i as int);
            }
            let ghost out0 = out@;
            proof {
                assert(out@ =~= out0 + to@.subrange(0, 0));
            }
            let mut k: usize = 0;
            while k < to.len()
                invariant
                    k <= to@.len(),
                    out@ == out0 + to@.subrange(0, k as int),
                decreases to@.len() - k,
            {
                out.push(to[k]);
                proof {
                    assert(out@ =~= out0 + to@.subrange(0, k + 1 as int));
                }
                k = k + 1;
            }
            proof {
                assert(to@.subrange(0, to@.len() as int) =~= to@);
                assert(out@ == out0 + to@);
                assert(out0 + to@ + replace_all_seq(s@.subrange(i + m, n as int), from@, to@)
                    =~= out0 + (to@ + replace_all_seq(s@.subrange(i + m, n as int), from@, to@)));
            }
            i = i + m;
        } else {
            proof {
                lemma_replace_step_nomatch(s@, from@, to@, i as int);
                assert(out@ + seq![s@[i as int]] + replace_all_seq(
                    s@.subrange(i + 1, n as int),
                    from@,
                    to@,
                ) =~= out@ + (seq![s@[i as int]] + replace_all_seq(
                    s@.subrange(i + 1, n as int),
                    from@,
                    to@,
                )));
            }
            out.push(s[i]);
            i = i + 1;
        }
    }
    proof {
        assert(s@.subrange(n as int, n as int) =~= Seq::<char>::empty());
        assert(out@ + Seq::<char>::empty() =~= out@);
    }
    out
}

/// Character-for-character equality of two string slices.
pub fn str_eq(a: &str, b: &str) -> (r: bool)
    ensures
        r == (a@ == b@),
{
    let av = to_chars(a);
    let bv = to_chars(b);
    chars_eq(&av, &bv)
}

/// Appends a copy of `s` to `dst`.
pub fn push_string(dst: &mut Vec<String>, s: &String)
    ensures
        final(dst).deep_view() == old(dst).deep_view() + seq![s@],
{
    let ghost dv_prev = dst.deep_view();
    let ghost out_prev = dst@;
    let c = s.clone();
    dst.push(c);
    proof {
        assert(dst@ == out_prev.push(c));
        let lhs = dst.deep_view();
        let rhs = dv_prev + seq![s@];
        assert(lhs.len() == rhs.len());
        assert forall|k: int| 0 <= k < lhs.len() implies lhs[k] == rhs[k] by {
            assert(lhs[k] == dst@[k]@);
            if k < out_prev.len() {
                assert(dst@[k] == out_prev[k]);
                assert(dv_prev[k] == out_prev[k]@);
            } else {
                assert(dst@[k] == c);
            }
        }
        assert(lhs =~= rhs);
    }
}

/// Appends a copy of each string of `src` to `dst`, in order.
pub fn push_all_strings(dst: &mut Vec<String>, src: &Vec<String>)
    ensures
        final(dst).deep_view() == old(dst).deep_view() + src.deep_view(),
{
    let ghost dv0 = dst.deep_view();
    let mut j: usize = 0;
    proof {
        assert(src.deep_view().subrange(0, 0) =~= Seq::<Seq<char>>::empty());
        assert(dst.deep_view() =~= dv0 + src.deep_view().subrange(0, 0));
    }
    while j < src.len()
        invariant
            j <= src@.len(),
            src.deep_view().len() == src@.len(),
            dst.deep_view() == dv0 + src.deep_view().subrange(0, j as int),
        decreases src@.len() - j,
    {
        let ghost dv_prev = dst.deep_view();
        let ghost out_prev = dst@;
        proof {
            assert(src.deep_view().subrange(0, j as int).len() == j);
            assert(dv_prev.len() == out_prev.len());
        }
        let s = src[j].clone();
        proof {
            assert(s@ == src@[j as int]@);
            assert(s@ == src.deep_view()[j as int]);
        }
        dst.push(s);
        proof {
            let lhs = dst.deep_view();
            let rhs = dv0 + src.deep_view().subrange(0, j + 1 as int);
            assert(dst@ == out_prev.push(s));
            assert(lhs.len() == rhs.len());
            assert forall|k: int| 0 <= k < lhs.len() implies lhs[k] == rhs[k] by {
                assert(lhs[k] == dst@[k]@);
                if k < dv0.len() + j {
                    assert(dst@[k] == out_prev[k]);
                    assert(dv_prev[k] == out_prev[k]@);
                    assert(dv_prev[k] == (dv0 + src.deep_view().subrange(0, j as int))[k]);
                } else {
                    assert(dst@[k] == s);
                    assert(rhs[k] == src.deep_view()[j as int]);
                }
            }
            assert(lhs =~= rhs);
        }
        j = j + 1;
    }
    proof {
        assert(src.deep_view().subrange(0, src@.len() as int) =~= src.deep_view());
    }
}

/// True when the character `c` occurs in `s`.
pub fn contains_char(s: &Vec<char>, c: char) -> (r: bool)
    ensures
        r == s@.contains(c),
{
    let mut i: usize = 0;
    while i < s.len()
        invariant
            i <= s@.len(),
            forall|j: int| 0 <= j < i ==> s@[j] != c,
        decreases s@.len() - i,
    {
        if s[i] == c {
            return true;
        }
        i = i + 1;
    }
    false
}

/// The characters of `s` from `from` (inclusive) to `to` (exclusive).
pub fn copy_range(s: &Vec<char>, from: usize, to: usize) -> (r: Vec<char>)
    requires
        from <= to <= s@.len(),
    ensures
        r@ == s@.subrange(from as int, to as int),
{
    let mut r: Vec<char> = Vec::new();
    let mut i: usize = from;
    proof {
        assert(r@ =~= s@.subrange(from as int, from as int));
    }
    while i < to
        invariant
            from <= i <= to <= s@.len(),
            r@ == s@.subrange(from as int, i as int),
        decreases to - i,
    {
        r.push(s[i]);
        proof {
            assert(r@ =~= s@.subrange(from as int, i + 1 as int));
        }
        i = i + 1;
    }
    r
}

/// The largest index at which `c` occurs in `s`, or `-1` when it does not.
pub open spec fn last_index_of(s: Seq<char>, c: char) -> int
    decreases s.len(),
{
    if s.len() == 0 {
        -1
    } else if s[s.len() - 1] == c {
        s.len() - 1
    } else {
        last_index_of(s.drop_last(), c)
    }
}

/// What `last_index_of` returns: the index of an occurrence after which
/// none follows, or `-1` when there is no occurrence at all.
pub proof fn lemma_last_index_of(s: Seq<char>, c: char)
    ensures
        -1 <= last_index_of(s, c) < s.len(),
        last_index_of(s, c) >= 0 ==> s[last_index_of(s, c)] == c,
        forall|j: int| last_index_of(s, c) < j < s.len() ==> s[j] != c,
    decreases s.len(),
{
    if s.len() > 0 && s[s.len() - 1] != c {
        lemma_last_index_of(s.drop_last(), c);
        assert(forall|j: int|
            0 <= j < s.len() - 1 ==> s[j] == s.drop_last()[j]);
    }
}

/// The largest index at which `c` occurs in `v`, if any.
pub fn last_index_char(v: &Vec<char>, c: char) -> (r: Option<usize>)
    ensures
        r matches Some(i) ==> i < v@.len() && last_index_of(v@, c) == i as int,
        r is None ==> last_index_of(v@, c) == -1,
{
    proof {
        lemma_last_index_of(v@, c);
    }
    let mut i: usize = v.len();
    while i > 0
        invariant
            i <= v@.len(),
            forall|j: int| i <= j < v@.len() ==> v@[j] != c,
        decreases i,
    {
        i = i - 1;
        if v[i] == c {
            proof {
                lemma_last_index_of(v@, c);
                assert(last_index_of(v@, c) == i as int) by {
                    let r = last_index_of(v@, c);
                    if r < i as int {
                        assert(v@[i as int] != c);
                    }
                }
            }
            return Some(i);
        }
    }
    proof {
        lemma_last_index_of(v@, c);
        assert(last_index_of(v@, c) == -1) by {
            let r = last_index_of(v@, c);
            if r >= 0 {
                assert(v@[r] != c);
            }
        }
    }
    None
}

/// The decimal digit character for `d`.
pub open spec fn digit_char(d: nat) -> char {
    if d == 0 {
        '0'
    } else if d == 1 {
        '1'
    } else if d == 2 {
        '2'
    } else if d == 3 {
        '3'
    } else if d == 4 {
        '4'
    } else if d == 5 {
        '5'
    } else if d == 6 {
        '6'
    } else if d == 7 {
        '7'
    } else if d == 8 {
        '8'
    } else {
        '9'
    }
}

/// The decimal rendering of `n`, most significant digit first.
pub open spec fn dec_digits(n: nat) -> Seq<char>
    decreases n,
{
    if n < 10 {
        seq![digit_char(n)]
    } else {
        dec_digits(n / 10) + seq![digit_char(n % 10)]
    }
}

fn digit_of(d: usize) -> (r: char)
    requires
        d < 10,
    ensures
        r == digit_char(d as nat),
{
    if d == 0 {
        '0'
    } else if d == 1 {
        '1'
    } else if d == 2 {
        '2'
    } else if d == 3 {
        '3'
    } else if d == 4 {
        '4'
    } else if d == 5 {
        '5'
    } else if d == 6 {
        '6'
    } else if d == 7 {
        '7'
    } else if d == 8 {
        '8'
    } else {
        '9'
    }
}

/// Appends the decimal rendering of `n` to `out`.
pub fn push_decimal(n: usize, out: &mut Vec<char>)
    ensures
        final(out)@ == old(out)@ + dec_digits(n as nat),
    decreases n,
{
    if n < 10 {
        out.push(digit_of(n));
    } else {
        push_decimal(n / 10, out);
        let ghost mid = out@;
        out.push(digit_of(n % 10));
        proof {
            assert(out@ =~= old(out)@ + dec_digits(n as nat));
        }
    }
}

/// Lower-cases an ASCII capital letter; any other character is unchanged.
pub open spec fn lower_char(c: char) -> char {
    if 'A' <= c && c <= 'Z' {
        ((c as u8) + 32) as char
    } else {
        c
    }
}

/// Character-wise ASCII lower-casing.
pub open spec fn lower_seq(s: Seq<char>) -> Seq<char> {
    s.map_values(|c: char| lower_char(c))
}

/// Lower-cases every ASCII capital letter in `s`.
pub fn lowercase_chars(s: &Vec<char>) -> (r: Vec<char>)
    ensures
        r@ == lower_seq(s@),
{
    let mut r: Vec<char> = Vec::new();
    let mut i: usize = 0;
    while i < s.len()
        invariant
            i <= s@.len(),
            r@ == lower_seq(s@).subrange(0, i as int),
        decreases s@.len() - i,
    {
        let c = s[i];
        if 'A' <= c && c <= 'Z' {
            r.push(((c as u8) + 32) as char);
        } else {
            r.push(c);
        }
        proof {
            assert(r@ =~= lower_seq(s@).subrange(0, i + 1 as int));
        }
        i = i + 1;
    }
    proof {
        assert(r@ =~= lower_seq(s@));
    }
    r
}

} // verus!
