use vstd::prelude::*;

verus! {

/// The characters of `s`, in order, as a vector.
pub fn chars_of(s: &str) -> (v: Vec<char>)
    ensures
        v@ == s@,
{
    let mut v: Vec<char> = Vec::new();
    for c in it: s.chars()
        invariant
            v@ == it.seq().take(it.index() as int),
    {
        v.push(c);
    }
    v
}


/// Unicode `White_Space`: the characters that `str::trim` removes.
pub open spec fn is_white_space(c: char) -> bool {
    ||| ('\t' <= c && c <= '\r')
    ||| c == ' '
    ||| c == '\u{85}'
    ||| c == '\u{a0}'
    ||| c == '\u{1680}'
    ||| ('\u{2000}' <= c && c <= '\u{200a}')
    ||| c == '\u{2028}'
    ||| c == '\u{2029}'
    ||| c == '\u{202f}'
    ||| c == '\u{205f}'
    ||| c == '\u{3000}'
}

pub fn is_whitespace(c: char) -> (r: bool)
    ensures
        r == is_white_space(c),
{
    ('\t' <= c && c <= '\r') || c == ' ' || c == '\u{85}' || c == '\u{a0}' || c == '\u{1680}'
        || ('\u{2000}' <= c && c <= '\u{200a}') || c == '\u{2028}' || c == '\u{2029}'
        || c == '\u{202f}' || c == '\u{205f}' || c == '\u{3000}'
}

/// `s` without its leading white space.
pub open spec fn trim_start(s: Seq<char>) -> Seq<char>
    decreases s.len(),
{
    if s.len() > 0 && is_white_space(s[0]) {
        trim_start(s.drop_first())
    } else {
        s
    }
}

/// `s` without its trailing white space.
pub open spec fn trim_end(s: Seq<char>) -> Seq<char>
    decreases s.len(),
{
    if s.len() > 0 && is_white_space(s.last()) {
        trim_end(s.drop_last())
    } else {
        s
    }
}

/// What `str::trim` gives back for `s`.
pub open spec fn trim(s: Seq<char>) -> Seq<char> {
    trim_end(trim_start(s))
}

proof fn lemma_trim_start_head(s: Seq<char>)
    ensures
        trim_start(s).len() == 0 || !is_white_space(trim_start(s)[0]),
    decreases s.len(),
{
    if s.len() > 0 && is_white_space(s[0]) {
        lemma_trim_start_head(s.drop_first());
    }
}

proof fn lemma_trim_end_last(s: Seq<char>)
    ensures
        trim_end(s).len() == 0 || !is_white_space(trim_end(s).last()),
    decreases s.len(),
{
    if s.len() > 0 && is_white_space(s.last()) {
        lemma_trim_end_last(s.drop_last());
    }
}

/// Trimming the end keeps a first character that is no white space.
proof fn lemma_trim_end_keeps_head(s: Seq<char>)
    requires
        s.len() > 0,
        !is_white_space(s[0]),
    ensures
        trim_end(s).len() > 0,
        trim_end(s)[0] == s[0],
    decreases s.len(),
{
    if is_white_space(s.last()) {
        lemma_trim_end_keeps_head(s.drop_last());
    }
}

/// A trimmed text has no white space left to trim.
pub proof fn lemma_trim_idempotent(s: Seq<char>)
    ensures
        trim(trim(s)) == trim(s),
{
    let t = trim(s);
    lemma_trim_start_head(s);
    lemma_trim_end_last(trim_start(s));
    if trim_start(s).len() > 0 {
        lemma_trim_end_keeps_head(trim_start(s));
    }
    assert(trim_start(t) == t);
    assert(trim_end(t) == t);
}

/// The bounds, within `[from, to)`, of that range of `chars` once trimmed.
pub fn trim_bounds(chars: &Vec<char>, from: usize, to: usize) -> (r: (usize, usize))
    requires
        from <= to <= chars@.len(),
    ensures
        from <= r.0 <= r.1 <= to,
        chars@.subrange(r.0 as int, r.1 as int) == trim(chars@.subrange(from as int, to as int)),
{
    let mut a = from;
    while a < to && is_whitespace(chars[a])
        invariant
            from <= a <= to <= chars@.len(),
            trim_start(chars@.subrange(from as int, to as int)) == trim_start(
                chars@.subrange(a as int, to as int),
            ),
        decreases to - a,
    {
        assert(chars@.subrange(a as int, to as int).drop_first() =~= chars@.subrange(
            a + 1,
            to as int,
        ));
        a = a + 1;
    }
    let mut b = to;
    while b > a && is_whitespace(chars[b - 1])
        invariant
            from <= a <= b <= to <= chars@.len(),
            trim(chars@.subrange(from as int, to as int)) == trim_end(
                chars@.subrange(a as int, b as int),
            ),
        decreases b - a,
    {
        assert(chars@.subrange(a as int, b as int).drop_last() =~= chars@.subrange(
            a as int,
            b - 1,
        ));
        b = b - 1;
    }
    (a, b)
}


/// The index of the first `c` in `s`, or the length of `s` where there is none.
pub open spec fn char_pos(s: Seq<char>, c: char) -> nat
    decreases s.len(),
{
    if s.len() == 0 {
        0
    } else if s[0] == c {
        0
    } else {
        1 + char_pos(s.drop_first(), c)
    }
}

pub proof fn lemma_char_pos_bound(s: Seq<char>, c: char)
    ensures
        char_pos(s, c) <= s.len(),
        char_pos(s, c) < s.len() ==> s[char_pos(s, c) as int] == c,
    decreases s.len(),
{
    if s.len() > 0 && s[0] != c {
        lemma_char_pos_bound(s.drop_first(), c);
    }
}

/// The lines of `s`: the pieces between `'\n'` characters, where a final
/// `'\n'` ends the last line and starts no new one. Unlike `str::lines`, a
/// `'\r'` before a `'\n'` stays in its line; where lines are trimmed, as
/// frontmatter lines are, the two agree.
pub open spec fn split_lines(s: Seq<char>) -> Seq<Seq<char>>
    decreases s.len(),
{
    if s.len() == 0 {
        Seq::empty()
    } else {
        let e = char_pos(s, '\n');
        if e < s.len() {
            seq![s.take(e as int)] + split_lines(s.skip(e + 1 as int))
        } else {
            seq![s]
        }
    }
}

/// The first position in `[from, to)` where `chars` holds `c`, or `to`.
pub fn find_char(chars: &Vec<char>, from: usize, to: usize, c: char) -> (r: usize)
    requires
        from <= to <= chars@.len(),
    ensures
        from <= r <= to,
        r - from == char_pos(chars@.subrange(from as int, to as int), c),
{
    let mut j = from;
    while j < to && chars[j] != c
        invariant
            from <= j <= to <= chars@.len(),
            char_pos(chars@.subrange(from as int, to as int), c) == (j - from) + char_pos(
                chars@.subrange(j as int, to as int),
                c,
            ),
        decreases to - j,
    {
        assert(chars@.subrange(j as int, to as int).drop_first() =~= chars@.subrange(
            j + 1,
            to as int,
        ));
        j = j + 1;
    }
    j
}

/// Whether the range `[a, b)` of `chars` holds exactly `word`.
pub fn range_eq(chars: &Vec<char>, a: usize, b: usize, word: &Vec<char>) -> (r: bool)
    requires
        a <= b <= chars@.len(),
    ensures
        r == (chars@.subrange(a as int, b as int) == word@),
{
    if b - a != word.len() {
        return false;
    }
    let mut i: usize = 0;
    while i < word.len()
        invariant
            a <= b <= chars@.len(),
            b - a == word@.len(),
            i <= word@.len(),
            forall|j: int| 0 <= j < i ==> chars@[a + j] == word@[j],
        decreases word@.len() - i,
    {
        if chars[a + i] != word[i] {
            assert(chars@.subrange(a as int, b as int)[i as int] != word@[i as int]);
            return false;
        }
        i = i + 1;
    }
    assert(chars@.subrange(a as int, b as int) =~= word@);
    true
}


/// `s` ends with `suffix`.
pub open spec fn ends_with(s: Seq<char>, suffix: Seq<char>) -> bool {
    s.len() >= suffix.len() && s.skip(s.len() - suffix.len()) == suffix
}

/// What `str::trim_end_matches` gives back: `s` with every trailing copy of
/// `pat` removed.
pub open spec fn trim_end_matches(s: Seq<char>, pat: Seq<char>) -> Seq<char>
    decreases s.len(),
{
    if pat.len() > 0 && ends_with(s, pat) {
        trim_end_matches(s.take(s.len() - pat.len()), pat)
    } else {
        s
    }
}

/// Whether `word` ends the range `[0, end)` of `chars`.
pub fn range_ends_with(chars: &Vec<char>, end: usize, word: &Vec<char>) -> (r: bool)
    requires
        end <= chars@.len(),
    ensures
        r == ends_with(chars@.take(end as int), word@),
{
    if end < word.len() {
        return false;
    }
    let r = range_eq(chars, end - word.len(), end, word);
    assert(chars@.take(end as int).skip(end - word@.len()) =~= chars@.subrange(
        end - word@.len(),
        end as int,
    ));
    r
}

/// The end of the range `[0, end)` of `chars` once every trailing copy of
/// `pat` is removed.
pub fn trim_end_matches_bound(chars: &Vec<char>, end: usize, pat: &Vec<char>) -> (r: usize)
    requires
        end <= chars@.len(),
    ensures
        r <= end,
        chars@.take(r as int) == trim_end_matches(chars@.take(end as int), pat@),
{
    if pat.len() == 0 {
        return end;
    }
    let mut e = end;
    while range_ends_with(chars, e, pat)
        invariant
            e <= end <= chars@.len(),
            pat@.len() > 0,
            trim_end_matches(chars@.take(end as int), pat@) == trim_end_matches(
                chars@.take(e as int),
                pat@,
            ),
        decreases e,
    {
        assert(chars@.take(e as int).take(e - pat@.len()) =~= chars@.take(e - pat@.len()));
        e = e - pat.len();
    }
    e
}

/// Lexicographic order of character sequences by code point: the order in
/// which Rust compares `str` values.
pub open spec fn lex_lt(a: Seq<char>, b: Seq<char>) -> bool
    decreases a.len(),
{
    if a.len() == 0 {
        b.len() > 0
    } else if b.len() == 0 {
        false
    } else if a[0] != b[0] {
        a[0] < b[0]
    } else {
        lex_lt(a.drop_first(), b.drop_first())
    }
}

pub proof fn lemma_lex_lt_total(a: Seq<char>, b: Seq<char>)
    ensures
        lex_lt(a, b) || lex_lt(b, a) || a == b,
        !(lex_lt(a, b) && lex_lt(b, a)),
    decreases a.len(),
{
    if a.len() > 0 && b.len() > 0 && a[0] == b[0] {
        lemma_lex_lt_total(a.drop_first(), b.drop_first());
        if a.drop_first() == b.drop_first() {
            assert(a =~= seq![a[0]] + a.drop_first());
            assert(b =~= seq![b[0]] + b.drop_first());
        }
    }
}

pub proof fn lemma_lex_lt_transitive(a: Seq<char>, b: Seq<char>, c: Seq<char>)
    requires
        lex_lt(a, b),
        lex_lt(b, c),
    ensures
        lex_lt(a, c),
    decreases a.len(),
{
    if a.len() > 0 && b.len() > 0 && c.len() > 0 && a[0] == b[0] && b[0] == c[0] {
        lemma_lex_lt_transitive(a.drop_first(), b.drop_first(), c.drop_first());
    }
}

/// Whether `a` comes before `b` in the order in which Rust compares strings.
pub fn str_lt(a: &str, b: &str) -> (r: bool)
    ensures
        r == lex_lt(a@, b@),
{
    let x = chars_of(a);
    let y = chars_of(b);
    let mut i: usize = 0;
    assert(x@.skip(0) =~= x@);
    assert(y@.skip(0) =~= y@);
    while i < x.len() && i < y.len() && x[i] == y[i]
        invariant
            x@ == a@,
            y@ == b@,
            i <= x@.len(),
            i <= y@.len(),
            lex_lt(a@, b@) == lex_lt(x@.skip(i as int), y@.skip(i as int)),
        decreases x@.len() - i,
    {
        assert(x@.skip(i as int).drop_first() =~= x@.skip(i + 1));
        assert(y@.skip(i as int).drop_first() =~= y@.skip(i + 1));
        i = i + 1;
    }
    if i == x.len() {
        i < y.len()
    } else if i == y.len() {
        false
    } else {
        x[i] < y[i]
    }
}


/// What `str::replace` gives back: every non-overlapping occurrence of `from`,
/// found from the left, replaced by `to`. An empty `from` matches before every
/// character and at the end.
pub open spec fn replace(s: Seq<char>, from: Seq<char>, to: Seq<char>) -> Seq<char>
    decreases s.len(),
{
    if from.len() == 0 {
        if s.len() == 0 {
            to
        } else {
            to + seq![s[0]] + replace(s.drop_first(), from, to)
        }
    } else if s.len() == 0 {
        Seq::empty()
    } else if s.len() >= from.len() && s.take(from.len() as int) == from {
        to + replace(s.skip(from.len() as int), from, to)
    } else {
        seq![s[0]] + replace(s.drop_first(), from, to)
    }
}

/// `s` with every occurrence of `from` replaced by `to`, as `str::replace` does.
pub fn replace_all(s: &str, from: &str, to: &str) -> (r: String)
    ensures
        r@ == replace(s@, from@, to@),
{
    let chars = chars_of(s);
    let pat = chars_of(from);
    let n = chars.len();
    let m = pat.len();
    let mut out = String::new();
    let mut i: usize = 0;
    assert(chars@.skip(0) =~= chars@);
    if m == 0 {
        while i < n
            invariant
                chars@ == s@,
                pat@ == from@,
                n == chars@.len(),
                m == 0,
                m == pat@.len(),
                i <= n,
                out@ + replace(chars@.skip(i as int), from@, to@) == replace(s@, from@, to@),
            decreases n - i,
        {
            let ghost rest = chars@.skip(i as int);
            assert(rest.drop_first() =~= chars@.skip(i + 1));
            let piece = s.substring_char(i, i + 1);
            assert(piece@ =~= seq![rest[0]]);
            let ghost before = out@;
            assert(replace(rest, from@, to@) == to@ + seq![rest[0]] + replace(
                rest.drop_first(),
                from@,
                to@,
            ));
            out.append(to);
            out.append(piece);
            assert(out@ + replace(chars@.skip(i + 1), from@, to@) =~= before + replace(
                rest,
                from@,
                to@,
            ));
            i = i + 1;
        }
        out.append(to);
        assert(chars@.skip(n as int) =~= Seq::<char>::empty());
        return out;
    }
    // `start` is where the text not yet copied to `out` begins
    let mut start: usize = 0;
    while i < n
        invariant
            chars@ == s@,
            pat@ == from@,
            n == chars@.len(),
            m == pat@.len() > 0,
            start <= i <= n,
            out@ + chars@.subrange(start as int, i as int) + replace(chars@.skip(i as int), from@, to@)
                == replace(s@, from@, to@),
        decreases n - i,
    {
        let ghost rest = chars@.skip(i as int);
        if m <= n - i && range_eq(&chars, i, i + m, &pat) {
            assert(rest.take(m as int) =~= chars@.subrange(i as int, i + m));
            assert(rest.skip(m as int) =~= chars@.skip(i + m));
            out.append(s.substring_char(start, i));
            out.append(to);
            assert(chars@.subrange((i + m) as int, (i + m) as int) =~= Seq::<char>::empty());
            i = i + m;
            start = i;
        } else {
            proof {
                if rest.len() >= m && rest.take(m as int) == pat@ {
                    assert(rest.take(m as int) =~= chars@.subrange(i as int, i + m));
                }
            }
            assert(rest.drop_first() =~= chars@.skip(i + 1));
            assert(chars@.subrange(start as int, i + 1) =~= chars@.subrange(start as int, i as int)
                + seq![rest[0]]);
            i = i + 1;
        }
    }
    out.append(s.substring_char(start, n));
    assert(chars@.skip(n as int) =~= Seq::<char>::empty());
    out
}


/// The character of the decimal digit `d`.
pub open spec fn digit_char(d: nat) -> char {
    ('0' as nat + d) as char
}

/// The decimal numeral of `n`, with no leading zeros: what `format!("{}", n)`
/// writes.
pub open spec fn decimal(n: nat) -> Seq<char>
    decreases n,
{
    if n < 10 {
        seq![digit_char(n)]
    } else {
        decimal(n / 10).push(digit_char(n % 10))
    }
}

fn digit_str(d: u32) -> (r: &'static str)
    requires
        d < 10,
    ensures
        r@ == seq![digit_char(d as nat)],
{
    proof {
        reveal_strlit("0");
        reveal_strlit("1");
        reveal_strlit("2");
        reveal_strlit("3");
        reveal_strlit("4");
        reveal_strlit("5");
        reveal_strlit("6");
        reveal_strlit("7");
        reveal_strlit("8");
        reveal_strlit("9");
    }
    let r = match d {
        0 => "0",
        1 => "1",
        2 => "2",
        3 => "3",
        4 => "4",
        5 => "5",
        6 => "6",
        7 => "7",
        8 => "8",
        _ => "9",
    };
    assert(r@ =~= seq![digit_char(d as nat)]);
    r
}

/// The decimal numeral of `n`.
pub fn decimal_string(n: u32) -> (r: String)
    ensures
        r@ == decimal(n as nat),
    decreases n,
{
    if n < 10 {
        String::from_str(digit_str(n))
    } else {
        let mut r = decimal_string(n / 10);
        r.append(digit_str(n % 10));
        r
    }
}

} // verus!
