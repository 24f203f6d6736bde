//! Verified text utilities: prefix tests, equality, first-occurrence
//! searches, line splitting and joining, and decimal parsing, all specified
//! over `Seq<char>` views. The one piece of outside text behaviour, Unicode
//! lowercasing, is taken on trust from the standard library under the name
//! `lower_of`.

use vstd::prelude::*;
use vstd::string::StrSliceExecFns;

verus! {

/// What `str::to_lowercase` returns, as a function of the characters alone.
pub uninterp spec fn lower_of(s: Seq<char>) -> Seq<char>;

/// Relies on str::to_lowercase: the result depends on the characters alone,
/// and an empty string stays empty.
#[verifier::external_body]
pub fn lowercase(s: &str) -> (r: String)
    ensures
        r@ == lower_of(s@),
        s@.len() == 0 ==> r@.len() == 0,
{
    s.to_lowercase()
}

/// `p` is a prefix of `l`.
pub open spec fn has_prefix(l: Seq<char>, p: Seq<char>) -> bool {
    p.len() <= l.len() && l.subrange(0, p.len() as int) == p
}

/// Decides `has_prefix` by comparing characters one at a time.
pub fn has_prefix_exec(l: &str, p: &str) -> (b: bool)
    ensures
        b == has_prefix(l@, p@),
{
    let pl = p.unicode_len();
    let ll = l.unicode_len();
    if pl > ll {
        return false;
    }
    let mut i: usize = 0;
    while i < pl
        invariant
            0 <= i <= pl,
            pl == p@.len(),
            ll == l@.len(),
            pl <= ll,
            forall|j: int| 0 <= j < i ==> l@[j] == p@[j],
        decreases pl - i,
    {
        if l.get_char(i) != p.get_char(i) {
            assert(l@.subrange(0, p@.len() as int)[i as int] != p@[i as int]);
            return false;
        }
        i += 1;
    }
    assert(l@.subrange(0, p@.len() as int) =~= p@);
    true
}

/// Copies out what follows a prefix of the given length.
pub fn after_prefix(l: &str, n: usize) -> (r: String)
    requires
        n <= l@.len(),
    ensures
        r@ == l@.skip(n as int),
{
    let ll = l.unicode_len();
    let tail = l.substring_char(n, ll);
    assert(tail@ =~= l@.skip(n as int));
    tail.to_owned()
}

/// Decides equality of two string slices character by character.
pub fn str_eq(a: &str, b: &str) -> (r: bool)
    ensures
        r == (a@ == b@),
{
    let al = a.unicode_len();
    let bl = b.unicode_len();
    if al != bl {
        return false;
    }
    let mut i: usize = 0;
    while i < al
        invariant
            0 <= i <= al,
            al == a@.len(),
            bl == b@.len(),
            al == bl,
            forall|j: int| 0 <= j < i ==> a@[j] == b@[j],
        decreases al - i,
    {
        if a.get_char(i) != b.get_char(i) {
            return false;
        }
        i += 1;
    }
    assert(a@ =~= b@);
    true
}

/// The views of a sequence of text lines.
pub open spec fn lines_v(ls: Seq<String>) -> Seq<Seq<char>> {
    ls.map_values(|l: String| l@)
}

/// Splitting a text at every newline: the segments between the newline
/// characters, in order. A text without newlines is one segment; every
/// newline ends a segment, so a trailing newline yields a trailing empty
/// segment.
pub open spec fn split_lines(s: Seq<char>) -> Seq<Seq<char>>
    decreases s.len(),
{
    if s.len() == 0 {
        seq![Seq::<char>::empty()]
    } else if s[0] == '\n' {
        seq![Seq::<char>::empty()] + split_lines(s.drop_first())
    } else {
        let rest = split_lines(s.drop_first());
        seq![seq![s[0]] + rest[0]] + rest.drop_first()
    }
}

/// A split always has at least one segment.
pub proof fn lemma_split_lines_len(s: Seq<char>)
    ensures
        split_lines(s).len() >= 1,
    decreases s.len(),
{
    if s.len() > 0 {
        lemma_split_lines_len(s.drop_first());
    }
}

/// A text without newlines splits into itself alone.
pub proof fn lemma_split_no_nl(s: Seq<char>)
    requires
        forall|i: int| 0 <= i < s.len() ==> s[i] != '\n',
    ensures
        split_lines(s) == seq![s],
    decreases s.len(),
{
    if s.len() == 0 {
        assert(s =~= Seq::<char>::empty());
    } else {
        let d = s.drop_first();
        assert(forall|i: int| 0 <= i < d.len() ==> d[i] == s[i + 1] && s[i + 1] != '\n');
        lemma_split_no_nl(d);
        assert(seq![s[0]] + d =~= s);
        assert((seq![d]).drop_first() =~= Seq::<Seq<char>>::empty());
        assert(split_lines(s) =~= seq![s]);
    }
}

/// Splitting at the first newline: the segment before it, then the split of
/// what follows it.
pub proof fn lemma_split_at_nl(s: Seq<char>, k: int)
    requires
        0 <= k < s.len(),
        s[k] == '\n',
        forall|i: int| 0 <= i < k ==> s[i] != '\n',
    ensures
        split_lines(s) == seq![s.take(k)] + split_lines(s.skip(k + 1)),
    decreases k,
{
    if k == 0 {
        assert(s.take(0) =~= Seq::<char>::empty());
        assert(s.skip(1) =~= s.drop_first());
        assert(split_lines(s) =~= seq![s.take(0)] + split_lines(s.skip(1)));
    } else {
        let d = s.drop_first();
        assert(forall|i: int| 0 <= i < d.len() ==> d[i] == s[i + 1]);
        lemma_split_at_nl(d, k - 1);
        let rest = split_lines(d);
        assert(rest[0] == d.take(k - 1));
        assert(seq![s[0]] + d.take(k - 1) =~= s.take(k));
        assert(rest.drop_first() =~= split_lines(d.skip(k)));
        assert(d.skip(k) =~= s.skip(k + 1));
        assert(split_lines(s) =~= seq![s.take(k)] + split_lines(s.skip(k + 1)));
    }
}

/// Joining segments back into a text, each segment followed by one newline.
pub open spec fn join_nl(lines: Seq<Seq<char>>) -> Seq<char>
    decreases lines.len(),
{
    if lines.len() == 0 {
        Seq::empty()
    } else {
        lines[0] + seq!['\n'] + join_nl(lines.drop_first())
    }
}

/// Joining what splitting produced gives the text back, with one newline
/// appended.
pub proof fn lemma_join_split(s: Seq<char>)
    ensures
        join_nl(split_lines(s)) == s + seq!['\n'],
    decreases s.len(),
{
    if s.len() == 0 {
        assert(split_lines(s).drop_first() =~= Seq::<Seq<char>>::empty());
        assert(join_nl(Seq::<Seq<char>>::empty()) == Seq::<char>::empty());
        assert(join_nl(split_lines(s)) == split_lines(s)[0] + seq!['\n'] + join_nl(
            split_lines(s).drop_first(),
        ));
        assert(join_nl(split_lines(s)) =~= s + seq!['\n']);
    } else if s[0] == '\n' {
        let d = s.drop_first();
        lemma_join_split(d);
        lemma_split_lines_len(d);
        let whole = seq![Seq::<char>::empty()] + split_lines(d);
        assert(split_lines(s) == whole);
        assert(whole.drop_first() =~= split_lines(d));
        assert(whole[0] =~= Seq::<char>::empty());
        assert(join_nl(whole) == whole[0] + seq!['\n'] + join_nl(whole.drop_first()));
        assert(join_nl(whole.drop_first()) == join_nl(split_lines(d)));
        assert(join_nl(whole) =~= s + seq!['\n']);
    } else {
        let d = s.drop_first();
        lemma_join_split(d);
        let rest = split_lines(d);
        lemma_split_lines_len(d);
        let whole = seq![seq![s[0]] + rest[0]] + rest.drop_first();
        assert(split_lines(s) == whole);
        assert(whole.drop_first() =~= rest.drop_first());
        assert(whole[0] == seq![s[0]] + rest[0]);
        assert(join_nl(whole) == whole[0] + seq!['\n'] + join_nl(whole.drop_first()));
        assert(join_nl(whole.drop_first()) == join_nl(rest.drop_first()));
        assert(join_nl(rest) == rest[0] + seq!['\n'] + join_nl(rest.drop_first()));
        assert(join_nl(rest) == d + seq!['\n']);
        assert(join_nl(whole) =~= seq![s[0]] + join_nl(rest));
        assert(seq![s[0]] + (d + seq!['\n']) =~= s + seq!['\n']);
        assert(join_nl(whole) == s + seq!['\n']);
    }
}

/// Splits a text into its lines.
pub fn split_to_lines(s: &str) -> (r: Vec<String>)
    ensures
        lines_v(r@) == split_lines(s@),
{
    let n = s.unicode_len();
    let mut r: Vec<String> = Vec::new();
    let mut start: usize = 0;
    let mut i: usize = 0;
    proof {
        assert(s@.skip(0) =~= s@);
        assert(lines_v(r@) =~= Seq::<Seq<char>>::empty());
        assert(lines_v(r@) + split_lines(s@) =~= split_lines(s@));
    }
    while i < n
        invariant
            0 <= start <= i <= n,
            n == s@.len(),
            split_lines(s@) == lines_v(r@) + split_lines(s@.skip(start as int)),
            forall|j: int| start <= j < i ==> s@[j] != '\n',
        decreases n - i,
    {
        if s.get_char(i) == '\n' {
            let piece = s.substring_char(start, i).to_owned();
            proof {
                let t = s@.skip(start as int);
                assert(forall|j: int| 0 <= j < i - start ==> t[j] == s@[j + start] && t[j] != '\n');
                assert(t[i - start] == s@[i as int]);
                lemma_split_at_nl(t, i - start);
                assert(t.take(i - start) =~= s@.subrange(start as int, i as int));
                assert(t.skip(i - start + 1) =~= s@.skip(i + 1));
                assert(lines_v(r@.push(piece)) =~= lines_v(r@).push(piece@));
                assert(lines_v(r@) + split_lines(t) =~= lines_v(r@.push(piece)) + split_lines(
                    s@.skip(i + 1),
                ));
            }
            r.push(piece);
            start = i + 1;
        }
        i += 1;
    }
    let piece = s.substring_char(start, n).to_owned();
    proof {
        let t = s@.skip(start as int);
        assert(forall|j: int| 0 <= j < t.len() ==> t[j] == s@[j + start] && t[j] != '\n');
        lemma_split_no_nl(t);
        assert(piece@ =~= t);
        assert(lines_v(r@.push(piece)) =~= lines_v(r@).push(piece@));
        assert(lines_v(r@) + split_lines(t) =~= lines_v(r@.push(piece)));
    }
    r.push(piece);
    r
}

/// A match of `n` inside `h` starting at position `i`.
pub open spec fn is_match_at(h: Seq<char>, n: Seq<char>, i: int) -> bool {
    0 <= i && i + n.len() <= h.len() && h.subrange(i, i + n.len() as int) == n
}

/// `h` holds `n` somewhere.
pub open spec fn contains_seq(h: Seq<char>, n: Seq<char>) -> bool {
    exists|i: int| is_match_at(h, n, i)
}

/// The first position where `n` matches inside `h`, if any.
pub open spec fn find_sub(h: Seq<char>, n: Seq<char>) -> Option<int>
    decreases h.len(),
{
    if n.len() <= h.len() && h.subrange(0, n.len() as int) == n {
        Some(0)
    } else if h.len() == 0 {
        None
    } else {
        match find_sub(h.drop_first(), n) {
            Option::None => Option::None,
            Option::Some(k) => Some(k + 1),
        }
    }
}

/// `find_sub` yields exactly the first match position, and fails exactly
/// when there is none.
pub proof fn lemma_find_sub(h: Seq<char>, n: Seq<char>)
    ensures
        match find_sub(h, n) {
            Option::None => !contains_seq(h, n),
            Option::Some(k) => is_match_at(h, n, k) && forall|i: int|
                0 <= i < k ==> !is_match_at(h, n, i),
        },
    decreases h.len(),
{
    if n.len() <= h.len() && h.subrange(0, n.len() as int) == n {
    } else if h.len() == 0 {
        assert forall|i: int| !is_match_at(h, n, i) by {
            if 0 <= i && i + n.len() <= h.len() {
                assert(n.len() == 0 && i == 0);
                assert(h.subrange(0, 0) =~= n);
            }
        }
    } else {
        let d = h.drop_first();
        lemma_find_sub(d, n);
        assert forall|i: int| 1 <= i && is_match_at(h, n, i) implies is_match_at(d, n, i - 1) by {
            assert(d.subrange(i - 1, i - 1 + n.len() as int) =~= h.subrange(
                i,
                i + n.len() as int,
            ));
        }
        assert forall|i: int| 0 <= i && is_match_at(d, n, i) implies is_match_at(h, n, i + 1) by {
            assert(d.subrange(i, i + n.len() as int) =~= h.subrange(i + 1, i + 1 + n.len() as int));
        }
        match find_sub(d, n) {
            Option::None => {
                assert forall|i: int| !is_match_at(h, n, i) by {
                    if i == 0 {
                    } else if i >= 1 && is_match_at(h, n, i) {
                        assert(is_match_at(d, n, i - 1));
                    }
                }
            },
            Option::Some(k) => {},
        }
    }
}

/// Finds the first occurrence of `needle` inside `hay`, by characters.
pub fn find_substring(hay: &str, needle: &str) -> (r: Option<usize>)
    ensures
        match find_sub(hay@, needle@) {
            Option::None => r is None,
            Option::Some(k) => r matches Some(u) && u == k,
        },
{
    proof {
        lemma_find_sub(hay@, needle@);
    }
    let hl = hay.unicode_len();
    let nl = needle.unicode_len();
    if nl > hl {
        return None;
    }
    let mut i: usize = 0;
    while i <= hl - nl
        invariant
            0 <= i <= hl - nl + 1,
            nl <= hl,
            hl == hay@.len(),
            nl == needle@.len(),
            forall|p: int| 0 <= p < i ==> !is_match_at(hay@, needle@, p),
        decreases hl - nl - i + 1,
    {
        let mut j: usize = 0;
        let mut matched = true;
        while matched && j < nl
            invariant
                0 <= j <= nl,
                0 <= i <= hl - nl,
                hl == hay@.len(),
                nl == needle@.len(),
                matched ==> forall|q: int| 0 <= q < j ==> hay@[i + q] == needle@[q],
                !matched ==> nl > 0 && !is_match_at(hay@, needle@, i as int),
            decreases nl - j,
        {
            if hay.get_char(i + j) != needle.get_char(j) {
                matched = false;
                proof {
                    assert(hay@.subrange(i as int, i + nl)[j as int] != needle@[j as int]);
                    assert(!is_match_at(hay@, needle@, i as int));
                }
            }
            j += 1;
        }
        if matched {
            proof {
                assert(hay@.subrange(i as int, i + nl) =~= needle@);
                assert(is_match_at(hay@, needle@, i as int));
                lemma_find_sub(hay@, needle@);
            }
            return Some(i);
        }
        i += 1;
    }
    proof {
        assert forall|p: int| !is_match_at(hay@, needle@, p) by {
            if 0 <= p && p + needle@.len() <= hay@.len() {
                assert(p < i);
            }
        }
    }
    None
}

/// A decimal digit.
pub open spec fn is_digit(c: char) -> bool {
    48 <= c as u32 <= 57
}

/// The value of a decimal digit.
pub open spec fn digit_val(c: char) -> int {
    c as u32 - 48
}

/// Every character is a decimal digit.
pub open spec fn all_digits(s: Seq<char>) -> bool {
    forall|i: int| 0 <= i < s.len() ==> is_digit(#[trigger] s[i])
}

/// The value of a decimal digit string, most significant digit first.
pub open spec fn dec_val(s: Seq<char>) -> int
    decreases s.len(),
{
    if s.len() == 0 {
        0
    } else {
        dec_val(s.drop_last()) * 10 + digit_val(s.last())
    }
}

/// A digit string's value is never negative.
pub proof fn lemma_dec_val_nonneg(s: Seq<char>)
    requires
        all_digits(s),
    ensures
        dec_val(s) >= 0,
    decreases s.len(),
{
    if s.len() > 0 {
        lemma_dec_val_nonneg(s.drop_last());
    }
}

/// Dropping trailing digits never increases the value.
pub proof fn lemma_dec_val_prefix_le(s: Seq<char>, i: int)
    requires
        all_digits(s),
        0 <= i <= s.len(),
    ensures
        dec_val(s.take(i)) <= dec_val(s),
    decreases s.len(),
{
    if i == s.len() {
        assert(s.take(i) =~= s);
    } else {
        let d = s.drop_last();
        assert(s.take(i) =~= d.take(i));
        lemma_dec_val_prefix_le(d, i);
        lemma_dec_val_nonneg(d);
    }
}

/// How an identifier is read as a numeric id: an optional leading plus
/// sign, then one or more decimal digits, denoting a value that fits in
/// `usize`. Anything else is not a numeric id.
pub open spec fn parse_id(s: Seq<char>) -> Option<int> {
    let t = if s.len() > 0 && s[0] == '+' {
        s.drop_first()
    } else {
        s
    };
    if t.len() > 0 && all_digits(t) && dec_val(t) <= usize::MAX as int {
        Some(dec_val(t))
    } else {
        None
    }
}

/// Reads a string as a numeric id when `parse_id` allows it.
pub fn parse_usize(s: &str) -> (r: Option<usize>)
    ensures
        match parse_id(s@) {
            Option::None => r is None,
            Option::Some(v) => r matches Some(u) && u == v,
        },
{
    let n = s.unicode_len();
    let mut start: usize = 0;
    if n > 0 && s.get_char(0) == '+' {
        start = 1;
    }
    let ghost t = if s@.len() > 0 && s@[0] == '+' {
        s@.drop_first()
    } else {
        s@
    };
    proof {
        assert(t =~= s@.skip(start as int));
    }
    if start >= n {
        return None;
    }
    let mut v: usize = 0;
    let mut i: usize = start;
    proof {
        assert(t.take(0) =~= Seq::<char>::empty());
    }
    while i < n
        invariant
            start <= i <= n,
            n == s@.len(),
            start <= 1,
            t == s@.skip(start as int),
            t == (if s@.len() > 0 && s@[0] == '+' {
                s@.drop_first()
            } else {
                s@
            }),
            t.len() == n - start,
            all_digits(t.take(i - start)),
            v == dec_val(t.take(i - start)),
        decreases n - i,
    {
        let c = s.get_char(i);
        let u = c as u32;
        proof {
            assert(t[i - start] == s@[i as int]);
        }
        if u < 48 || u > 57 {
            proof {
                assert(!is_digit(t[i - start]));
                assert(!all_digits(t));
                assert(parse_id(s@) is None);
            }
            return None;
        }
        let d = (u - 48) as usize;
        let wide: u128 = (v as u128) * 10 + (d as u128);
        proof {
            assert(t.take(i - start + 1).drop_last() =~= t.take(i - start));
            assert(t.take(i - start + 1).last() == t[i - start]);
            assert(dec_val(t.take(i - start + 1)) == v * 10 + d);
        }
        if wide > (usize::MAX as u128) {
            proof {
                assert(wide == v * 10 + d);
                if all_digits(t) && dec_val(t) <= usize::MAX as int {
                    lemma_dec_val_prefix_le(t, i - start + 1);
                    assert(dec_val(t.take(i - start + 1)) <= usize::MAX as int);
                    assert(false);
                }
                assert(parse_id(s@) is None);
            }
            return None;
        }
        v = wide as usize;
        i += 1;
    }
    proof {
        assert(t.take(n - start) =~= t);
    }
    Some(v)
}

/// An ASCII letter or digit, by code point.
pub open spec fn is_alnum(c: char) -> bool {
    (48 <= c as u32 && c as u32 <= 57) || (65 <= c as u32 && c as u32 <= 90) || (97 <= c as u32
        && c as u32 <= 122)
}

/// Decides `is_alnum` on a character.
pub fn is_alnum_exec(c: char) -> (b: bool)
    ensures
        b == is_alnum(c),
{
    let u = c as u32;
    (48 <= u && u <= 57) || (65 <= u && u <= 90) || (97 <= u && u <= 122)
}

} // verus!
