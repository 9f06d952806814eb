//! Character-level string utilities: trimming, case folding, splitting,
//! searching and integer parsing, each with an exact specification over
//! `Seq<char>`.

use vstd::prelude::*;

verus! {

/// ASCII whitespace, as trimmed from header fragments.
pub open spec fn is_space_char(c: char) -> bool {
    c == ' ' || c == '\t' || c == '\n' || c == '\r' || c == '\u{b}' || c == '\u{c}'
}

/// ASCII lower-casing of a single character.
pub open spec fn lower_char(c: char) -> char {
    if 'A' <= c && c <= 'Z' {
        ((c as u8) + 32) as char
    } else {
        c
    }
}

/// ASCII lower-casing of a character sequence.
pub open spec fn lower(s: Seq<char>) -> Seq<char> {
    s.map_values(|c: char| lower_char(c))
}

fn lower_char_exec(c: char) -> (r: char)
    ensures
        r == lower_char(c),
{
    if 'A' <= c && c <= 'Z' {
        ((c as u8) + 32) as char
    } else {
        c
    }
}

/// The characters of a string slice, as a vector.
pub fn str_to_chars(s: &str) -> (r: Vec<char>)
    ensures
        r@ == s@,
{
    let n: usize = s.unicode_len();
    let mut r: Vec<char> = Vec::new();
    for i in 0..n
        invariant
            n == s@.len(),
            r@ == s@.subrange(0, i as int),
    {
        r.push(s.get_char(i));
        assert(r@ =~= s@.subrange(0, i + 1 as int));
    }
    assert(r@ =~= s@);
    r
}

/// Relies on `core::iter::Iterator::collect`: collecting characters into a
/// `String` yields a string holding exactly those characters.
#[verifier::external_body]
pub fn chars_to_string(v: &Vec<char>) -> (r: String)
    ensures
        r@ == v@,
{
    v.iter().collect()
}

/// ASCII lower-casing of a character vector.
pub fn to_lower(s: &Vec<char>) -> (r: Vec<char>)
    ensures
        r@ == lower(s@),
{
    let mut r: Vec<char> = Vec::new();
    let n = s.len();
    for i in 0..n
        invariant
            n == s@.len(),
            r@ == lower(s@.subrange(0, i as int)),
    {
        r.push(lower_char_exec(s[i]));
        assert(r@ =~= lower(s@.subrange(0, i + 1 as int)));
    }
    assert(r@ =~= lower(s@));
    r
}

/// Whether `p` is a prefix of `s`.
pub open spec fn has_prefix(s: Seq<char>, p: Seq<char>) -> bool {
    p.len() <= s.len() && s.subrange(0, p.len() as int) == p
}

fn is_space(c: char) -> (b: bool)
    ensures
        b == is_space_char(c),
{
    c == ' ' || c == '\t' || c == '\n' || c == '\r' || c == '\u{b}' || c == '\u{c}'
}

/// `s` with leading and trailing whitespace removed.
pub open spec fn trim(s: Seq<char>) -> Seq<char>
    decreases s.len(),
{
    if s.len() == 0 {
        s
    } else if is_space_char(s[0]) {
        trim(s.drop_first())
    } else if is_space_char(s[s.len() - 1]) {
        trim(s.drop_last())
    } else {
        s
    }
}

proof fn lemma_trim_range(s: Seq<char>, a: int, b: int)
    requires
        0 <= a <= b <= s.len(),
        forall|i: int| 0 <= i < a ==> is_space_char(s[i]),
        forall|i: int| b <= i < s.len() ==> is_space_char(s[i]),
        a < b ==> !is_space_char(s[a]) && !is_space_char(s[b - 1]),
    ensures
        trim(s) == s.subrange(a, b),
    decreases s.len(),
{
    if s.len() == 0 {
        assert(trim(s) =~= s.subrange(a, b));
    } else if a > 0 {
        lemma_trim_range(s.drop_first(), a - 1, b - 1);
        assert(s.drop_first().subrange(a - 1, b - 1) =~= s.subrange(a, b));
    } else if b < s.len() {
        if a == b {
            assert(is_space_char(s[0]));
            lemma_trim_range(s.drop_first(), 0, 0);
            assert(s.drop_first().subrange(0, 0) =~= s.subrange(a, b));
        } else {
            assert(!is_space_char(s[0]));
            assert(is_space_char(s[s.len() - 1]));
            lemma_trim_range(s.drop_last(), a, b);
            assert(s.drop_last().subrange(a, b) =~= s.subrange(a, b));
        }
    } else {
        if a == b {
            assert(is_space_char(s[0]));
            lemma_trim_range(s.drop_first(), 0, 0);
            assert(s.drop_first().subrange(0, 0) =~= s.subrange(a, b));
        } else {
            assert(trim(s) == s);
            assert(s.subrange(a, b) =~= s);
        }
    }
}

/// The characters `s[from..to]`, as a fresh vector.
pub fn subvec(s: &Vec<char>, from: usize, to: usize) -> (r: Vec<char>)
    requires
        from <= to <= s@.len(),
    ensures
        r@ == s@.subrange(from as int, to as int),
{
    let mut r: Vec<char> = Vec::new();
    let mut i: usize = from;
    while i < to
        invariant
            from <= i <= to <= s@.len(),
            r@ == s@.subrange(from as int, i as int),
        decreases to - i,
    {
        r.push(s[i]);
        assert(r@ =~= s@.subrange(from as int, i + 1 as int));
        i += 1;
    }
    r
}

/// `s` with surrounding whitespace removed.
pub fn trim_chars(s: &Vec<char>) -> (r: Vec<char>)
    ensures
        r@ == trim(s@),
{
    let n = s.len();
    let mut a: usize = 0;
    while a < n && is_space(s[a])
        invariant
            0 <= a <= n,
            n == s@.len(),
            forall|i: int| 0 <= i < a ==> is_space_char(s@[i]),
        decreases n - a,
    {
        a += 1;
    }
    let mut b: usize = n;
    while b > a && is_space(s[b - 1])
        invariant
            a <= b <= n,
            n == s@.len(),
            forall|i: int| b <= i < n ==> is_space_char(s@[i]),
        decreases b,
    {
        b -= 1;
    }
    proof {
        lemma_trim_range(s@, a as int, b as int);
    }
    subvec(s, a, b)
}

/// Character-wise equality of a vector against a string slice.
pub fn chars_eq_str(v: &Vec<char>, s: &str) -> (b: bool)
    ensures
        b == (v@ == s@),
{
    let n: usize = s.unicode_len();
    if v.len() != n {
        return false;
    }
    let mut i: usize = 0;
    while i < n
        invariant
            0 <= i <= n,
            n == s@.len(),
            n == v@.len(),
            forall|j: int| 0 <= j < i ==> v@[j] == s@[j],
        decreases n - i,
    {
        if v[i] != s.get_char(i) {
            return false;
        }
        i += 1;
    }
    assert(v@ =~= s@);
    true
}

/// Whether the characters of `p` are a prefix of `v`.
pub fn starts_with_str(v: &Vec<char>, p: &str) -> (b: bool)
    ensures
        b == has_prefix(v@, p@),
{
    let n: usize = p.unicode_len();
    if v.len() < n {
        assert(!has_prefix(v@, p@));
        return false;
    }
    let mut i: usize = 0;
    while i < n
        invariant
            0 <= i <= n,
            n == p@.len(),
            n <= v@.len(),
            forall|j: int| 0 <= j < i ==> v@[j] == p@[j],
        decreases n - i,
    {
        if v[i] != p.get_char(i) {
            assert(v@.subrange(0, n as int)[i as int] != p@[i as int]);
            return false;
        }
        i += 1;
    }
    assert(v@.subrange(0, n as int) =~= p@);
    true
}

/// `s` split on `sep`; empty pieces are kept, and the empty string
/// yields one empty piece.
pub open spec fn split_on(s: Seq<char>, sep: char) -> Seq<Seq<char>>
    decreases s.len(),
{
    if s.len() == 0 {
        seq![Seq::<char>::empty()]
    } else if s[0] == sep {
        seq![Seq::<char>::empty()] + split_on(s.drop_first(), sep)
    } else {
        let rest = split_on(s.drop_first(), sep);
        seq![seq![s[0]] + rest[0]] + rest.drop_first()
    }
}

proof fn lemma_split_len(s: Seq<char>, sep: char)
    ensures
        split_on(s, sep).len() >= 1,
    decreases s.len(),
{
    if s.len() > 0 {
        lemma_split_len(s.drop_first(), sep);
    }
}

proof fn lemma_split_no_sep(s: Seq<char>, sep: char)
    requires
        forall|i: int| 0 <= i < s.len() ==> s[i] != sep,
    ensures
        split_on(s, sep) == seq![s],
    decreases s.len(),
{
    if s.len() == 0 {
        assert(split_on(s, sep) =~~= seq![s]);
    } else {
        assert(forall|i: int| 0 <= i < s.drop_first().len() ==> s.drop_first()[i] != sep);
        lemma_split_no_sep(s.drop_first(), sep);
        assert(seq![s[0]] + s.drop_first() =~= s);
        assert(split_on(s, sep) =~~= seq![s]);
    }
}

proof fn lemma_split_at_first(s: Seq<char>, sep: char, k: int)
    requires
        0 <= k < s.len(),
        s[k] == sep,
        forall|i: int| 0 <= i < k ==> s[i] != sep,
    ensures
        split_on(s, sep) == seq![s.subrange(0, k)] + split_on(
            s.subrange(k + 1, s.len() as int),
            sep,
        ),
    decreases s.len(),
{
    if k == 0 {
        assert(s.drop_first() =~= s.subrange(1, s.len() as int));
        assert(s.subrange(0, 0) =~= Seq::<char>::empty());
        assert(split_on(s, sep) =~~= seq![s.subrange(0, k)] + split_on(
            s.subrange(k + 1, s.len() as int),
            sep,
        ));
    } else {
        let t = s.drop_first();
        assert(t[k - 1] == sep);
        assert(forall|i: int| 0 <= i < k - 1 ==> t[i] != sep);
        lemma_split_at_first(t, sep, k - 1);
        lemma_split_len(t.subrange(k, t.len() as int), sep);
        assert(t.subrange(0, k - 1) =~= s.subrange(1, k));
        assert(t.subrange(k, t.len() as int) =~= s.subrange(k + 1, s.len() as int));
        assert(seq![s[0]] + s.subrange(1, k) =~= s.subrange(0, k));
        assert(split_on(s, sep) =~~= seq![s.subrange(0, k)] + split_on(
            s.subrange(k + 1, s.len() as int),
            sep,
        ));
    }
}

/// The views of the pieces in `r`.
pub open spec fn views_of(r: Seq<Vec<char>>) -> Seq<Seq<char>> {
    r.map_values(|p: Vec<char>| p@)
}

/// `s` split on the character `sep`, as Rust's `str::split` does it.
pub fn split_chars(s: &Vec<char>, sep: char) -> (r: Vec<Vec<char>>)
    ensures
        views_of(r@) == split_on(s@, sep),
        r@.len() >= 1,
{
    let n = s.len();
    let mut r: Vec<Vec<char>> = Vec::new();
    proof {
        assert(s@.subrange(0, n as int) =~= s@);
        assert(views_of(r@) + split_on(s@.subrange(0, n as int), sep) =~~= split_on(s@, sep));
    }
    let mut start: usize = 0;
    let mut i: usize = 0;
    while i < n
        invariant
            0 <= start <= i <= n,
            n == s@.len(),
            split_on(s@, sep) == views_of(r@) + split_on(
                s@.subrange(start as int, n as int),
                sep,
            ),
            forall|j: int| start <= j < i ==> s@[j] != sep,
        decreases n - i,
    {
        if s[i] == sep {
            let piece = subvec(s, start, i);
            proof {
                let suffix = s@.subrange(start as int, n as int);
                lemma_split_at_first(suffix, sep, i - start);
                assert(suffix.subrange(0, i - start) =~= s@.subrange(start as int, i as int));
                assert(suffix.subrange(i - start + 1, suffix.len() as int) =~= s@.subrange(
                    i + 1,
                    n as int,
                ));
            }
            r.push(piece);
            proof {
                assert(views_of(r@) =~~= views_of(r@.drop_last()) + seq![s@.subrange(
                    start as int,
                    i as int,
                )]);
                assert(split_on(s@, sep) =~~= views_of(r@) + split_on(
                    s@.subrange(i + 1, n as int),
                    sep,
                ));
            }
            start = i + 1;
        }
        i += 1;
    }
    let piece = subvec(s, start, n);
    proof {
        lemma_split_no_sep(s@.subrange(start as int, n as int), sep);
    }
    r.push(piece);
    proof {
        assert(views_of(r@) =~~= views_of(r@.drop_last()) + seq![s@.subrange(
            start as int,
            n as int,
        )]);
        assert(split_on(s@, sep) =~~= views_of(r@));
    }
    r
}

/// The pieces joined with `sep` between them; empty for no pieces.
pub open spec fn join_with(pieces: Seq<Seq<char>>, sep: Seq<char>) -> Seq<char>
    decreases pieces.len(),
{
    if pieces.len() == 0 {
        Seq::empty()
    } else if pieces.len() == 1 {
        pieces[0]
    } else {
        pieces[0] + sep + join_with(pieces.drop_first(), sep)
    }
}

proof fn lemma_join_snoc(pieces: Seq<Seq<char>>, sep: Seq<char>, x: Seq<char>)
    requires
        pieces.len() >= 1,
    ensures
        join_with(pieces.push(x), sep) == join_with(pieces, sep) + sep + x,
    decreases pieces.len(),
{
    if pieces.len() == 1 {
        assert(pieces.push(x).drop_first() =~= seq![x]);
        assert(join_with(seq![x], sep) == x);
        assert(join_with(pieces.push(x), sep) =~= join_with(pieces, sep) + sep + x);
    } else {
        lemma_join_snoc(pieces.drop_first(), sep, x);
        assert(pieces.push(x).drop_first() =~= pieces.drop_first().push(x));
        assert(join_with(pieces.push(x), sep) =~= join_with(pieces, sep) + sep + x);
    }
}

/// Append the characters of `piece` to `out`.
pub fn append_chars(out: &mut Vec<char>, piece: &Vec<char>)
    ensures
        final(out)@ == old(out)@ + piece@,
{
    let n = piece.len();
    let mut i: usize = 0;
    while i < n
        invariant
            0 <= i <= n,
            n == piece@.len(),
            out@ == old(out)@ + piece@.subrange(0, i as int),
        decreases n - i,
    {
        out.push(piece[i]);
        assert(out@ =~= old(out)@ + piece@.subrange(0, i + 1 as int));
        i += 1;
    }
    assert(out@ =~= old(out)@ + piece@);
}

/// Append the characters of the string slice `piece` to `out`.
pub fn append_str(out: &mut Vec<char>, piece: &str)
    ensures
        final(out)@ == old(out)@ + piece@,
{
    let n: usize = piece.unicode_len();
    let mut i: usize = 0;
    while i < n
        invariant
            0 <= i <= n,
            n == piece@.len(),
            out@ == old(out)@ + piece@.subrange(0, i as int),
        decreases n - i,
    {
        out.push(piece.get_char(i));
        assert(out@ =~= old(out)@ + piece@.subrange(0, i + 1 as int));
        i += 1;
    }
    assert(out@ =~= old(out)@ + piece@);
}

/// The pieces joined with the separator `sep` between them.
pub fn join_pieces(pieces: &Vec<Vec<char>>, sep: &str) -> (r: Vec<char>)
    ensures
        r@ == join_with(views_of(pieces@), sep@),
{
    let mut out: Vec<char> = Vec::new();
    let n = pieces.len();
    if n == 0 {
        return out;
    }
    append_chars(&mut out, &pieces[0]);
    assert(views_of(pieces@).subrange(0, 1) =~= seq![pieces@[0]@]);
    let mut i: usize = 1;
    while i < n
        invariant
            1 <= i <= n,
            n == pieces@.len(),
            out@ == join_with(views_of(pieces@).subrange(0, i as int), sep@),
        decreases n - i,
    {
        append_str(&mut out, sep);
        append_chars(&mut out, &pieces[i]);
        proof {
            let prefix = views_of(pieces@).subrange(0, i as int);
            lemma_join_snoc(prefix, sep@, pieces@[i as int]@);
            assert(prefix.push(pieces@[i as int]@) =~= views_of(pieces@).subrange(0, i + 1));
        }
        i += 1;
    }
    assert(views_of(pieces@).subrange(0, n as int) =~= views_of(pieces@));
    out
}

/// A decimal digit.
pub open spec fn is_digit(c: char) -> bool {
    '0' <= c && c <= '9'
}

/// The numeric value of a decimal digit character.
pub open spec fn digit_val(c: char) -> int {
    (c as u32) as int - 48
}

/// The value of a string of decimal digits.
pub open spec fn digits_val(s: Seq<char>) -> int
    decreases s.len(),
{
    if s.len() == 0 {
        0
    } else {
        digits_val(s.drop_last()) * 10 + digit_val(s.last())
    }
}

pub open spec fn all_digits(s: Seq<char>) -> bool {
    forall|i: int| 0 <= i < s.len() ==> is_digit(s[i])
}

/// The digit part of a signed-integer literal (after an optional sign).
pub open spec fn int_digits(s: Seq<char>) -> Seq<char> {
    if s.len() > 0 && (s[0] == '+' || s[0] == '-') {
        s.drop_first()
    } else {
        s
    }
}

/// Whether `s` is an optional sign followed by one or more digits.
pub open spec fn int_syntax_ok(s: Seq<char>) -> bool {
    int_digits(s).len() > 0 && all_digits(int_digits(s))
}

/// The mathematical value of a well-formed signed-integer literal.
pub open spec fn int_value(s: Seq<char>) -> int {
    if s.len() > 0 && s[0] == '-' {
        -digits_val(int_digits(s))
    } else {
        digits_val(int_digits(s))
    }
}

/// What `str::parse::<i64>` returns on `s`: the value when the syntax is
/// well formed and the value fits, `None` otherwise.
pub open spec fn parse_i64_spec(s: Seq<char>) -> Option<i64> {
    if int_syntax_ok(s) && i64::MIN <= int_value(s) <= i64::MAX {
        Some(int_value(s) as i64)
    } else {
        None
    }
}

proof fn lemma_digits_val_nonneg(s: Seq<char>)
    requires
        all_digits(s),
    ensures
        digits_val(s) >= 0,
    decreases s.len(),
{
    if s.len() > 0 {
        assert(all_digits(s.drop_last()));
        lemma_digits_val_nonneg(s.drop_last());
    }
}

proof fn lemma_digits_val_prefix_le(s: Seq<char>, k: int)
    requires
        all_digits(s),
        0 <= k <= s.len(),
    ensures
        digits_val(s.subrange(0, k)) <= digits_val(s),
    decreases s.len() - k,
{
    if k < s.len() {
        let t = s.subrange(0, k + 1);
        assert(t.drop_last() =~= s.subrange(0, k));
        assert(all_digits(t.drop_last()));
        lemma_digits_val_nonneg(t.drop_last());
        assert(digits_val(t) == digits_val(s.subrange(0, k)) * 10 + digit_val(s[k]));
        lemma_digits_val_prefix_le(s, k + 1);
    } else {
        assert(s.subrange(0, k) =~= s);
    }
}

/// Parse a signed 64-bit integer, as `str::parse::<i64>` does.
pub fn parse_i64(s: &Vec<char>) -> (r: Option<i64>)
    ensures
        r == parse_i64_spec(s@),
{
    let n = s.len();
    if n == 0 {
        return None;
    }
    let neg = s[0] == '-';
    let has_sign = neg || s[0] == '+';
    let start: usize = if has_sign {
        1
    } else {
        0
    };
    proof {
        if has_sign {
            assert(int_digits(s@) =~= s@.subrange(1, n as int));
        } else {
            assert(int_digits(s@) =~= s@.subrange(0, n as int));
            assert(s@.subrange(0, n as int) =~= s@);
        }
    }
    if start == n {
        assert(int_digits(s@).len() == 0);
        return None;
    }
    let ghost d = int_digits(s@);
    let limit: u128 = if neg {
        9223372036854775808u128
    } else {
        9223372036854775807u128
    };
    let mut mag: u128 = 0;
    let mut i = start;
    while i < n
        invariant
            start <= i <= n,
            n == s@.len(),
            start == 1 <==> has_sign,
            start <= 1,
            has_sign == (s@[0] == '-' || s@[0] == '+'),
            neg == (s@[0] == '-'),
            d == int_digits(s@),
            d == s@.subrange(start as int, n as int),
            limit == if neg { 0x8000000000000000u128 } else { 0x7fffffffffffffffu128 },
            all_digits(d.subrange(0, i - start)),
            mag == digits_val(d.subrange(0, i - start)),
            mag <= limit,
        decreases n - i,
    {
        let c = s[i];
        if !('0' <= c && c <= '9') {
            assert(!is_digit(d[i - start]));
            assert(!int_syntax_ok(s@));
            return None;
        }
        let dv: u128 = (c as u32 - 48) as u128;
        let nm: u128 = mag * 10 + dv;
        proof {
            let t = d.subrange(0, i - start + 1);
            assert(t.drop_last() =~= d.subrange(0, i - start));
            assert(digits_val(t) == mag * 10 + dv);
        }
        if nm > limit {
            proof {
                if int_syntax_ok(s@) {
                    lemma_digits_val_prefix_le(d, i - start + 1);
                    if neg {
                        assert(int_value(s@) <= -(nm as int));
                        assert(int_value(s@) < i64::MIN);
                    } else {
                        assert(int_value(s@) >= nm as int);
                        assert(int_value(s@) > i64::MAX);
                    }
                }
            }
            return None;
        }
        mag = nm;
        i += 1;
    }
    proof {
        assert(d.subrange(0, n - start) =~= d);
        assert(int_syntax_ok(s@));
        lemma_digits_val_nonneg(d);
    }
    if neg {
        if mag == 9223372036854775808u128 {
            Some(i64::MIN)
        } else {
            Some(-(mag as i64))
        }
    } else {
        Some(mag as i64)
    }
}

/// Whether `pat` occurs in `s` starting at position `i`.
pub open spec fn matches_at(s: Seq<char>, pat: Seq<char>, i: int) -> bool {
    0 <= i && i + pat.len() <= s.len() && s.subrange(i, i + pat.len() as int) == pat
}

/// Whether `pat` occurs anywhere in `s`.
pub open spec fn contains_sub(s: Seq<char>, pat: Seq<char>) -> bool {
    exists|i: int| matches_at(s, pat, i)
}

/// `i` is the first occurrence of `pat` in `s`.
pub open spec fn found_first(s: Seq<char>, pat: Seq<char>, i: int) -> bool {
    matches_at(s, pat, i) && forall|j: int| 0 <= j < i ==> !matches_at(s, pat, j)
}

fn match_at(s: &Vec<char>, pat: &Vec<char>, at: usize) -> (b: bool)
    requires
        at + pat@.len() <= s@.len(),
    ensures
        b == matches_at(s@, pat@, at as int),
{
    let n = s.len();
    let m = pat.len();
    let mut j: usize = 0;
    while j < m
        invariant
            0 <= j <= m,
            m == pat@.len(),
            n == s@.len(),
            at + m <= n,
            forall|k: int| 0 <= k < j ==> s@[at + k] == pat@[k],
        decreases m - j,
    {
        if s[at + j] != pat[j] {
            assert(s@.subrange(at as int, at + m)[j as int] != pat@[j as int]);
            return false;
        }
        j += 1;
    }
    assert(s@.subrange(at as int, at + m) =~= pat@);
    true
}

/// The first occurrence of `pat` in `s` at or after `from`, if any.
pub fn find_sub_from(s: &Vec<char>, pat: &Vec<char>, from: usize) -> (r: Option<usize>)
    requires
        pat@.len() >= 1,
    ensures
        match r {
            Some(i) => from <= i && matches_at(s@, pat@, i as int) && forall|j: int|
                from <= j < i ==> !matches_at(s@, pat@, j),
            None => forall|j: int| j >= from ==> !matches_at(s@, pat@, j),
        },
{
    let n = s.len();
    let m = pat.len();
    if m > n || from > n - m {
        return None;
    }
    let last = n - m;
    let mut i = from;
    while i <= last
        invariant
            m == pat@.len(),
            n == s@.len(),
            1 <= m <= n,
            last == n - m,
            from <= i <= last + 1,
            forall|j: int| from <= j < i ==> !matches_at(s@, pat@, j),
        decreases n - i,
    {
        if match_at(s, pat, i) {
            return Some(i);
        }
        i += 1;
    }
    None
}

/// Whether `pat` occurs anywhere in `s`.
pub fn contains_chars(s: &Vec<char>, pat: &Vec<char>) -> (b: bool)
    requires
        pat@.len() >= 1,
    ensures
        b == contains_sub(s@, pat@),
{
    match find_sub_from(s, pat, 0) {
        Some(i) => {
            assert(matches_at(s@, pat@, i as int));
            true
        },
        None => {
            assert(forall|j: int| !matches_at(s@, pat@, j)) by {
                assert(forall|j: int| j < 0 ==> !matches_at(s@, pat@, j));
            }
            false
        },
    }
}

/// The first occurrence of `pat` in `s`, or `-1`.
pub open spec fn first_match(s: Seq<char>, pat: Seq<char>) -> int
    decreases s.len(),
{
    if pat.len() == 0 {
        0
    } else if s.len() < pat.len() {
        -1
    } else if s.subrange(0, pat.len() as int) == pat {
        0
    } else {
        let r = first_match(s.drop_first(), pat);
        if r == -1 {
            -1
        } else {
            r + 1
        }
    }
}

proof fn lemma_shift_match(s: Seq<char>, pat: Seq<char>, j: int)
    requires
        s.len() >= 1,
        j >= 0,
    ensures
        matches_at(s.drop_first(), pat, j) <==> matches_at(s, pat, j + 1),
{
    if matches_at(s.drop_first(), pat, j) {
        assert(s.drop_first().subrange(j, j + pat.len() as int) =~= s.subrange(
            j + 1,
            j + 1 + pat.len() as int,
        ));
    }
    if matches_at(s, pat, j + 1) {
        assert(s.subrange(j + 1, j + 1 + pat.len() as int) =~= s.drop_first().subrange(
            j,
            j + pat.len() as int,
        ));
    }
}

pub proof fn lemma_first_match(s: Seq<char>, pat: Seq<char>)
    requires
        pat.len() >= 1,
    ensures
        first_match(s, pat) >= -1,
        first_match(s, pat) == -1 ==> forall|j: int| !matches_at(s, pat, j),
        first_match(s, pat) >= 0 ==> found_first(s, pat, first_match(s, pat)),
        first_match(s, pat) >= 0 ==> first_match(s, pat) + pat.len() <= s.len(),
    decreases s.len(),
{
    if s.len() < pat.len() {
        assert(forall|j: int| !matches_at(s, pat, j));
    } else if s.subrange(0, pat.len() as int) == pat {
        assert(matches_at(s, pat, 0));
    } else {
        lemma_first_match(s.drop_first(), pat);
        let r = first_match(s.drop_first(), pat);
        if r == -1 {
            assert forall|j: int| !matches_at(s, pat, j) by {
                if j >= 1 {
                    lemma_shift_match(s, pat, j - 1);
                } else if j == 0 {
                    assert(!matches_at(s, pat, 0));
                }
            }
        } else {
            assert(matches_at(s.drop_first(), pat, r));
            lemma_shift_match(s, pat, r);
            assert(matches_at(s, pat, r + 1));
            assert forall|j: int| 0 <= j < r + 1 implies !matches_at(s, pat, j) by {
                if j >= 1 {
                    lemma_shift_match(s, pat, j - 1);
                }
            }
        }
    }
}

/// Every occurrence of `pat` in `s` replaced by `to`, left to right.
pub open spec fn replace_all(s: Seq<char>, pat: Seq<char>, to: Seq<char>) -> Seq<char>
    decreases s.len(),
{
    if pat.len() == 0 {
        s
    } else {
        let k = first_match(s, pat);
        if k < 0 || k + pat.len() > s.len() {
            s
        } else {
            s.subrange(0, k) + to + replace_all(s.subrange(k + pat.len(), s.len() as int), pat, to)
        }
    }
}

/// Replace every occurrence of `pat` in `s` by `to`, as `str::replace` does.
pub fn replace_all_chars(s: &Vec<char>, pat: &Vec<char>, to: &Vec<char>) -> (r: Vec<char>)
    requires
        pat@.len() >= 1,
    ensures
        r@ == replace_all(s@, pat@, to@),
{
    let n = s.len();
    let mut out: Vec<char> = Vec::new();
    let mut pos: usize = 0;
    proof {
        assert(s@.subrange(0, n as int) =~= s@);
    }
    loop
        invariant
            0 <= pos <= n,
            n == s@.len(),
            pat@.len() >= 1,
            replace_all(s@, pat@, to@) == out@ + replace_all(
                s@.subrange(pos as int, n as int),
                pat@,
                to@,
            ),
        decreases n - pos,
    {
        let found = find_sub_from(s, pat, pos);
        let ghost suffix = s@.subrange(pos as int, n as int);
        match found {
            Some(i) => {
                proof {
                    lemma_first_match(suffix, pat@);
                    let k = first_match(suffix, pat@);
                    assert(suffix.subrange(i - pos, i - pos + pat@.len() as int) =~= s@.subrange(
                        i as int,
                        i + pat@.len() as int,
                    ));
                    assert(matches_at(suffix, pat@, i - pos));
                    assert forall|u: int| 0 <= u < i - pos implies !matches_at(
                        suffix,
                        pat@,
                        u,
                    ) by {
                        if matches_at(suffix, pat@, u) {
                            assert(s@.subrange(pos + u, pos + u + pat@.len() as int)
                                =~= suffix.subrange(u, u + pat@.len() as int));
                            assert(matches_at(s@, pat@, pos + u));
                        }
                    }
                    assert(k == i - pos);
                    assert(replace_all(suffix, pat@, to@) == suffix.subrange(0, k) + to@
                        + replace_all(suffix.subrange(k + pat@.len(), suffix.len() as int), pat@, to@));
                    assert(suffix.subrange(0, k) =~= s@.subrange(pos as int, i as int));
                    assert(suffix.subrange(k + pat@.len(), suffix.len() as int) =~= s@.subrange(
                        i + pat@.len(),
                        n as int,
                    ));
                }
                let piece = subvec(s, pos, i);
                append_chars(&mut out, &piece);
                append_chars(&mut out, to);
                pos = i + pat.len();
            },
            None => {
                proof {
                    lemma_first_match(suffix, pat@);
                    assert forall|u: int| !matches_at(suffix, pat@, u) by {
                        if 0 <= u && matches_at(suffix, pat@, u) {
                            assert(s@.subrange(pos + u, pos + u + pat@.len() as int)
                                =~= suffix.subrange(u, u + pat@.len() as int));
                            assert(matches_at(s@, pat@, pos + u));
                        }
                    }
                    assert(first_match(suffix, pat@) == -1) by {
                        if first_match(suffix, pat@) >= 0 {
                            assert(matches_at(suffix, pat@, first_match(suffix, pat@)));
                        }
                    }
                    assert(replace_all(suffix, pat@, to@) == suffix);
                }
                let piece = subvec(s, pos, n);
                append_chars(&mut out, &piece);
                return out;
            },
        }
    }
}

/// The decimal digit character for `d`.
pub open spec fn dec_digit_char(d: int) -> char {
    ((48 + d) as u8) as char
}

/// The decimal representation of a non-negative integer.
pub open spec fn dec_chars(n: int) -> Seq<char>
    decreases n,
{
    if n < 0 {
        Seq::empty()
    } else if n < 10 {
        seq![dec_digit_char(n)]
    } else {
        dec_chars(n / 10).push(dec_digit_char(n % 10))
    }
}

/// The decimal representation of `n`, most significant digit first.
pub fn u64_to_chars(n: u64) -> (r: Vec<char>)
    ensures
        r@ == dec_chars(n as int),
{
    let mut m = n;
    let mut acc: Vec<char> = Vec::new();
    loop
        invariant_except_break
            acc@.len() == 0 ==> m == n,
            acc@.len() > 0 ==> m > 0,
            acc@.len() > 0 ==> dec_chars(n as int) == dec_chars(m as int) + acc@.reverse(),
        ensures
            dec_chars(n as int) == acc@.reverse(),
        decreases m, (if acc@.len() == 0 { 1int } else { 0int }),
    {
        let d: u8 = (m % 10) as u8;
        let c: char = (48 + d) as char;
        proof {
            let prev = acc@;
            assert(prev.push(c).reverse() =~= seq![c] + prev.reverse());
            if m >= 10 {
                assert(dec_chars(m as int) == dec_chars(m as int / 10).push(c));
                assert(dec_chars(m as int / 10).push(c) + prev.reverse() =~= dec_chars(
                    m as int / 10,
                ) + (seq![c] + prev.reverse()));
                if prev.len() == 0 {
                    assert(dec_chars(m as int / 10) + prev.push(c).reverse() =~= dec_chars(
                        m as int,
                    ));
                }
            } else {
                assert(dec_chars(m as int) =~= seq![c]);
                assert(seq![c] + prev.reverse() =~= dec_chars(m as int) + prev.reverse());
                if prev.len() == 0 {
                    assert(prev.push(c).reverse() =~= dec_chars(m as int));
                }
            }
        }
        acc.push(c);
        m = m / 10;
        if m == 0 {
            break;
        }
    }
    let k = acc.len();
    let mut r: Vec<char> = Vec::new();
    let mut i: usize = k;
    while i > 0
        invariant
            0 <= i <= k,
            k == acc@.len(),
            r@.len() == k - i,
            forall|j: int| 0 <= j < k - i ==> r@[j] == acc@[k - 1 - j],
        decreases i,
    {
        i -= 1;
        r.push(acc[i]);
    }
    assert(r@ =~= acc@.reverse());
    r
}

/// `s` split at the first occurrence of `c`: the parts before and after,
/// or `None` when `c` does not occur.
pub open spec fn split_once_at(s: Seq<char>, c: char) -> Option<(Seq<char>, Seq<char>)> {
    let k = first_match(s, seq![c]);
    if k < 0 || k + 1 > s.len() {
        None
    } else {
        Some((s.subrange(0, k), s.subrange(k + 1, s.len() as int)))
    }
}

/// Split at the first occurrence of `c`, as `str::split_once` does.
pub fn split_once_chars(s: &Vec<char>, c: char) -> (r: Option<(Vec<char>, Vec<char>)>)
    ensures
        match r {
            Some(p) => {
                &&& split_once_at(s@, c) is Some
                &&& p.0@ == split_once_at(s@, c).unwrap().0
                &&& p.1@ == split_once_at(s@, c).unwrap().1
            },
            None => split_once_at(s@, c) is None,
        },
{
    let mut pat: Vec<char> = Vec::new();
    pat.push(c);
    assert(pat@ =~= seq![c]);
    let n = s.len();
    match find_sub_from(s, &pat, 0) {
        Some(i) => {
            proof {
                lemma_first_match(s@, pat@);
                let k = first_match(s@, pat@);
                assert(matches_at(s@, pat@, i as int));
                assert(k == i) by {
                    if k < i {
                        assert(matches_at(s@, pat@, k));
                    }
                    if k > i {
                        assert(!matches_at(s@, pat@, i as int));
                    }
                }
            }
            let left = subvec(s, 0, i);
            let right = subvec(s, i + 1, n);
            Some((left, right))
        },
        None => {
            proof {
                lemma_first_match(s@, pat@);
                if first_match(s@, pat@) >= 0 {
                    assert(matches_at(s@, pat@, first_match(s@, pat@)));
                }
            }
            None
        },
    }
}

/// Character-wise equality of two string slices.
pub fn str_eq(a: &str, b: &str) -> (r: bool)
    ensures
        r == (a@ == b@),
{
    let n: usize = a.unicode_len();
    let m: usize = b.unicode_len();
    if n != m {
        return false;
    }
    let mut i: usize = 0;
    while i < n
        invariant
            0 <= i <= n,
            n == a@.len(),
            n == b@.len(),
            forall|j: int| 0 <= j < i ==> a@[j] == b@[j],
        decreases n - i,
    {
        if a.get_char(i) != b.get_char(i) {
            return false;
        }
        i += 1;
    }
    assert(a@ =~= b@);
    true
}

/// Character-wise equality of two vectors.
pub fn chars_eq(a: &Vec<char>, b: &Vec<char>) -> (r: bool)
    ensures
        r == (a@ == b@),
{
    let n = a.len();
    if b.len() != n {
        return false;
    }
    let mut i: usize = 0;
    while i < n
        invariant
            0 <= i <= n,
            n == a@.len(),
            n == b@.len(),
            forall|j: int| 0 <= j < i ==> a@[j] == b@[j],
        decreases n - i,
    {
        if a[i] != b[i] {
            return false;
        }
        i += 1;
    }
    assert(a@ =~= b@);
    true
}

/// The first occurrence of `pat` in `s`, tied to the `first_match` spec.
pub fn find_first(s: &Vec<char>, pat: &Vec<char>) -> (r: Option<usize>)
    requires
        pat@.len() >= 1,
    ensures
        match r {
            Some(i) => first_match(s@, pat@) == i,
            None => first_match(s@, pat@) == -1,
        },
{
    match find_sub_from(s, pat, 0) {
        Some(i) => {
            proof {
                lemma_first_match(s@, pat@);
                let k = first_match(s@, pat@);
                assert(matches_at(s@, pat@, i as int));
                assert(k == i) by {
                    if k < i {
                        assert(matches_at(s@, pat@, k));
                    }
                    if k > i {
                        assert(!matches_at(s@, pat@, i as int));
                    }
                }
            }
            Some(i)
        },
        None => {
            proof {
                lemma_first_match(s@, pat@);
                if first_match(s@, pat@) >= 0 {
                    assert(matches_at(s@, pat@, first_match(s@, pat@)));
                }
            }
            None
        },
    }
}

} // verus!
