//! Character-level string helpers shared by the library.
use vstd::prelude::*;

verus! {

/// Append one character to a `String` (std `String::push`).
#[verifier::external_body]
pub fn push_char(s: &mut String, c: char)
    ensures
        final(s)@ == old(s)@.push(c),
{
    s.push(c);
}

/// Append a string slice to a `String` (std `String::push_str`).
#[verifier::external_body]
pub fn push_str(s: &mut String, t: &str)
    ensures
        final(s)@ == old(s)@ + t@,
{
    s.push_str(t);
}

/// Equality of two string slices: the same characters in the same order.
pub fn str_eq(a: &str, b: &str) -> (r: bool)
    ensures
        r == (a@ == b@),
{
    let x = chars_of(a);
    let y = chars_of(b);
    if x.len() != y.len() {
        return false;
    }
    let mut i: usize = 0;
    while i < x.len()
        invariant
            i <= x@.len(),
            x@.len() == y@.len(),
            x@ == a@,
            y@ == b@,
            forall|j: int| 0 <= j < i ==> x@[j] == y@[j],
        decreases x.len() - i,
    {
        if x[i] != y[i] {
            return false;
        }
        i += 1;
    }
    proof {
        assert(x@ =~= y@);
    }
    true
}

/// The characters of `s`, in order.
pub fn chars_of(s: &str) -> (v: Vec<char>)
    ensures
        v@ == s@,
{
    let mut v: Vec<char> = Vec::new();
    for c in it: s.chars()
        invariant
            v@ == it.seq().take(it.index() as int),
    {
        v.push(c);
    }
    v
}

/// A `String` holding exactly the characters of `v`.
pub fn string_of(v: &[char]) -> (s: String)
    ensures
        s@ == v@,
{
    let mut s = String::new();
    let mut i: usize = 0;
    while i < v.len()
        invariant
            i <= v.len(),
            s@ == v@.take(i as int),
        decreases v.len() - i,
    {
        push_char(&mut s, v[i]);
        i += 1;
        assert(v@.take(i as int) =~= v@.take((i - 1) as int).push(v@[i - 1]));
    }
    assert(v@.take(v.len() as int) =~= v@);
    s
}

/// An owned copy of a string slice.
pub fn owned(s: &str) -> (r: String)
    ensures
        r@ == s@,
{
    s.to_owned()
}

/// A copy of a `String`.
pub fn copy_string(s: &String) -> (r: String)
    ensures
        r@ == s@,
{
    s.clone()
}

} // verus!

verus! {

/// Lexicographic strict order on character sequences, comparing characters by
/// code point (the order `str`'s `Ord` gives, since UTF-8 preserves it).
pub open spec fn lex_lt(a: Seq<char>, b: Seq<char>) -> bool
    decreases a.len(),
{
    if a.len() == 0 {
        b.len() > 0
    } else if b.len() == 0 {
        false
    } else if (a[0] as u32) < (b[0] as u32) {
        true
    } else if a[0] == b[0] {
        lex_lt(a.drop_first(), b.drop_first())
    } else {
        false
    }
}

pub proof fn lemma_lex_irreflexive(a: Seq<char>)
    ensures
        !lex_lt(a, a),
    decreases a.len(),
{
    if a.len() > 0 {
        lemma_lex_irreflexive(a.drop_first());
    }
}

pub proof fn lemma_lex_asymmetric(a: Seq<char>, b: Seq<char>)
    ensures
        !(lex_lt(a, b) && lex_lt(b, a)),
    decreases a.len(),
{
    if a.len() > 0 && b.len() > 0 && a[0] == b[0] {
        lemma_lex_asymmetric(a.drop_first(), b.drop_first());
    }
}

pub proof fn lemma_lex_transitive(a: Seq<char>, b: Seq<char>, c: Seq<char>)
    requires
        lex_lt(a, b),
        lex_lt(b, c),
    ensures
        lex_lt(a, c),
    decreases a.len(),
{
    if a.len() > 0 && b.len() > 0 && c.len() > 0 && a[0] == b[0] && b[0] == c[0] {
        lemma_lex_transitive(a.drop_first(), b.drop_first(), c.drop_first());
    }
}

pub proof fn lemma_lex_total(a: Seq<char>, b: Seq<char>)
    ensures
        a =~= b || lex_lt(a, b) || lex_lt(b, a),
    decreases a.len(),
{
    if a.len() > 0 && b.len() > 0 {
        if a[0] == b[0] {
            lemma_lex_total(a.drop_first(), b.drop_first());
            if a.drop_first() =~= b.drop_first() {
                assert(a =~= seq![a[0]] + a.drop_first());
                assert(b =~= seq![b[0]] + b.drop_first());
            }
        } else {
            let (x, y) = (a[0], b[0]);
            vstd::utf8::char_u32_cast(x, x as u32);
            vstd::utf8::char_u32_cast(y, y as u32);
        }
    }
}

/// Whether `a` sorts strictly before `b` (lexicographic by code point).
pub fn str_lt(a: &str, b: &str) -> (r: bool)
    ensures
        r == lex_lt(a@, b@),
{
    let x = chars_of(a);
    let y = chars_of(b);
    chars_lt(&x, &y)
}

/// Lexicographic strict order on character slices.
pub fn chars_lt(x: &[char], y: &[char]) -> (r: bool)
    ensures
        r == lex_lt(x@, y@),
{
    let mut i: usize = 0;
    assert(x@.skip(0) =~= x@);
    assert(y@.skip(0) =~= y@);
    while i < x.len() && i < y.len()
        invariant
            i <= x.len(),
            i <= y.len(),
            x@.take(i as int) =~= y@.take(i as int),
            lex_lt(x@, y@) == lex_lt(x@.skip(i as int), y@.skip(i as int)),
        decreases x.len() - i,
    {
        let cx = x[i];
        let cy = y[i];
        if (cx as u32) < (cy as u32) {
            return true;
        }
        if cx != cy {
            return false;
        }
        assert(x@.skip(i as int).drop_first() =~= x@.skip(i + 1));
        assert(y@.skip(i as int).drop_first() =~= y@.skip(i + 1));
        assert(x@.take(i + 1) =~= x@.take(i as int).push(cx));
        assert(y@.take(i + 1) =~= y@.take(i as int).push(cy));
        i += 1;
    }
    i < y.len()
}

} // verus!

verus! {

/// Rust's `split(sep)` on a character sequence: the pieces between separators,
/// always at least one (possibly empty) piece.
pub open spec fn split_on(s: Seq<char>, sep: char) -> Seq<Seq<char>>
    decreases s.len(),
{
    if s.len() == 0 {
        seq![Seq::<char>::empty()]
    } else {
        let prev = split_on(s.drop_last(), sep);
        if s.last() == sep {
            prev.push(Seq::<char>::empty())
        } else {
            prev.update(prev.len() - 1, prev.last().push(s.last()))
        }
    }
}

/// Joining pieces with a separator character (`[..].join(sep)`).
pub open spec fn join_with(ls: Seq<Seq<char>>, sep: char) -> Seq<char>
    decreases ls.len(),
{
    if ls.len() == 0 {
        Seq::<char>::empty()
    } else if ls.len() == 1 {
        ls[0]
    } else {
        join_with(ls.drop_last(), sep).push(sep) + ls.last()
    }
}

/// `s` with every trailing `c` removed (`trim_end_matches(c)`).
pub open spec fn trim_end_char(s: Seq<char>, c: char) -> Seq<char>
    decreases s.len(),
{
    if s.len() > 0 && s.last() == c {
        trim_end_char(s.drop_last(), c)
    } else {
        s
    }
}

pub proof fn lemma_split_nonempty(s: Seq<char>, sep: char)
    ensures
        split_on(s, sep).len() >= 1,
    decreases s.len(),
{
    if s.len() > 0 {
        lemma_split_nonempty(s.drop_last(), sep);
    }
}

/// Split a character slice on `sep`.
pub fn split_chars(s: &[char], sep: char) -> (r: Vec<Vec<char>>)
    ensures
        r@.len() == split_on(s@, sep).len(),
        forall|i: int| 0 <= i < r@.len() ==> #[trigger] r@[i]@ == split_on(s@, sep)[i],
{
    let mut done: Vec<Vec<char>> = Vec::new();
    let mut cur: Vec<char> = Vec::new();
    let mut i: usize = 0;
    assert(s@.take(0) =~= Seq::<char>::empty());
    while i < s.len()
        invariant
            i <= s.len(),
            done@.len() + 1 == split_on(s@.take(i as int), sep).len(),
            forall|j: int| 0 <= j < done@.len() ==> #[trigger] done@[j]@ == split_on(s@.take(i as int), sep)[j],
            cur@ == split_on(s@.take(i as int), sep).last(),
        decreases s.len() - i,
    {
        let c = s[i];
        proof {
            lemma_split_nonempty(s@.take(i as int), sep);
            assert(s@.take(i + 1).drop_last() =~= s@.take(i as int));
        }
        if c == sep {
            let piece = cur;
            done.push(piece);
            cur = Vec::new();
        } else {
            cur.push(c);
        }
        i += 1;
    }
    assert(s@.take(s.len() as int) =~= s@);
    done.push(cur);
    done
}

/// Join the character pieces `ls[from..]` with `sep`.
pub fn join_chars(ls: &[Vec<char>], from: usize, sep: char) -> (r: Vec<char>)
    requires
        from <= ls@.len(),
    ensures
        r@ == join_with(ls@.skip(from as int).map_values(|v: Vec<char>| v@), sep),
{
    let ghost views = ls@.skip(from as int).map_values(|v: Vec<char>| v@);
    let mut r: Vec<char> = Vec::new();
    let mut i: usize = from;
    assert(views.take(0) =~= Seq::<Seq<char>>::empty());
    while i < ls.len()
        invariant
            from <= i <= ls.len(),
            views == ls@.skip(from as int).map_values(|v: Vec<char>| v@),
            r@ == join_with(views.take(i - from), sep),
        decreases ls.len() - i,
    {
        assert(views.take(i - from + 1).drop_last() =~= views.take(i - from));
        if i > from {
            r.push(sep);
        }
        let mut k: usize = 0;
        let ghost before = r@;
        while k < ls[i].len()
            invariant
                i < ls.len(),
                k <= ls@[i as int]@.len(),
                r@ == before + ls@[i as int]@.take(k as int),
            decreases ls@[i as int]@.len() - k,
        {
            r.push(ls[i][k]);
            k += 1;
            assert(ls@[i as int]@.take(k as int) =~= ls@[i as int]@.take(k - 1).push(ls@[i as int]@[k - 1]));
        }
        assert(ls@[i as int]@.take(k as int) =~= ls@[i as int]@);
        assert(views[i - from] == ls@[i as int]@);
        proof {
            if i == from {
                assert(views.take(1) =~= seq![views[0]]);
                assert(before =~= Seq::<char>::empty());
            }
        }
        i += 1;
    }
    assert(views.take(ls.len() - from) =~= views);
    r
}

/// Strip every trailing `c` from a character slice.
pub fn trim_end_chars(s: &[char], c: char) -> (r: Vec<char>)
    ensures
        r@ == trim_end_char(s@, c),
{
    let mut n: usize = s.len();
    assert(s@.take(n as int) =~= s@);
    while n > 0 && s[n - 1] == c
        invariant
            n <= s.len(),
            trim_end_char(s@, c) == trim_end_char(s@.take(n as int), c),
        decreases n,
    {
        assert(s@.take(n as int).drop_last() =~= s@.take(n - 1));
        n -= 1;
    }
    let mut r: Vec<char> = Vec::new();
    let mut i: usize = 0;
    while i < n
        invariant
            i <= n <= s.len(),
            r@ == s@.take(i as int),
        decreases n - i,
    {
        r.push(s[i]);
        i += 1;
        assert(s@.take(i as int) =~= s@.take(i - 1).push(s@[i - 1]));
    }
    r
}

} // verus!

verus! {

/// The decimal digit character for `d` (`d < 10`).
pub open spec fn digit_char(d: nat) -> char {
    ((d + 48) as u8) as char
}

/// The decimal representation of `n` (no leading zeros; `"0"` for zero).
pub open spec fn decimal(n: nat) -> Seq<char>
    decreases n,
{
    if n < 10 {
        seq![digit_char(n)]
    } else {
        decimal(n / 10).push(digit_char(n % 10))
    }
}

/// Append the decimal representation of `n` to `s`.
pub fn push_decimal(s: &mut String, n: u64)
    ensures
        final(s)@ == old(s)@ + decimal(n as nat),
    decreases n,
{
    if n < 10 {
        let c = ((n as u8) + 48) as char;
        push_char(s, c);
    } else {
        push_decimal(s, n / 10);
        let c = (((n % 10) as u8) + 48) as char;
        push_char(s, c);
    }
}

/// The decimal representation of `n` as a `String`.
pub fn decimal_string(n: u64) -> (s: String)
    ensures
        s@ == decimal(n as nat),
{
    let mut s = String::new();
    push_decimal(&mut s, n);
    assert(s@ =~= decimal(n as nat));
    s
}

/// Whether `p` is a prefix of `s`.
pub fn has_prefix(s: &[char], p: &[char]) -> (r: bool)
    ensures
        r == (p@.len() <= s@.len() && s@.take(p@.len() as int) == p@),
{
    if p.len() > s.len() {
        return false;
    }
    let mut i: usize = 0;
    while i < p.len()
        invariant
            p@.len() <= s@.len(),
            i <= p.len(),
            s@.take(i as int) =~= p@.take(i as int),
        decreases p.len() - i,
    {
        if s[i] != p[i] {
            assert(s@.take(p@.len() as int)[i as int] != p@[i as int]);
            return false;
        }
        i += 1;
        assert(s@.take(i as int) =~= s@.take(i - 1).push(s@[i - 1]));
        assert(p@.take(i as int) =~= p@.take(i - 1).push(p@[i - 1]));
    }
    assert(p@.take(p@.len() as int) =~= p@);
    true
}

} // verus!

verus! {

/// `s` with every character `c` replaced by `f(c)` (a flat map).
pub open spec fn expand(s: Seq<char>, f: spec_fn(char) -> Seq<char>) -> Seq<char>
    decreases s.len(),
{
    if s.len() == 0 {
        Seq::<char>::empty()
    } else {
        expand(s.drop_last(), f) + f(s.last())
    }
}

pub proof fn lemma_expand_step(s: Seq<char>, i: int, f: spec_fn(char) -> Seq<char>)
    requires
        0 <= i < s.len(),
    ensures
        expand(s.take(i + 1), f) == expand(s.take(i), f) + f(s[i]),
{
    assert(s.take(i + 1).drop_last() =~= s.take(i));
}

pub proof fn lemma_expand_all(s: Seq<char>, f: spec_fn(char) -> Seq<char>)
    ensures
        expand(s.take(s.len() as int), f) == expand(s, f),
{
    assert(s.take(s.len() as int) =~= s);
}

/// Append a character slice to a `String`.
pub fn push_chars(s: &mut String, v: &[char])
    ensures
        final(s)@ == old(s)@ + v@,
{
    let mut i: usize = 0;
    while i < v.len()
        invariant
            i <= v.len(),
            s@ == old(s)@ + v@.take(i as int),
        decreases v.len() - i,
    {
        push_char(s, v[i]);
        i += 1;
        assert(v@.take(i as int) =~= v@.take(i - 1).push(v@[i - 1]));
    }
    assert(v@.take(v.len() as int) =~= v@);
}

/// The number of characters in `s`.
pub fn char_count(s: &str) -> (n: usize)
    ensures
        n == s@.len(),
{
    let v = chars_of(s);
    v.len()
}

} // verus!

verus! {

/// The decimal representation of a signed integer (`-` before negatives).
pub open spec fn int_decimal(n: int) -> Seq<char> {
    if n < 0 {
        seq!['-'] + decimal((-n) as nat)
    } else {
        decimal(n as nat)
    }
}

/// Append the decimal representation of `n` to `s`.
pub fn push_int(s: &mut String, n: i64)
    ensures
        final(s)@ == old(s)@ + int_decimal(n as int),
{
    if n < 0 {
        push_char(s, '-');
        let m: u64 = if n == i64::MIN {
            9_223_372_036_854_775_808u64
        } else {
            (-n) as u64
        };
        push_decimal(s, m);
        assert(final(s)@ =~= old(s)@ + int_decimal(n as int));
    } else {
        push_decimal(s, n as u64);
    }
}

} // verus!

verus! {

/// Unicode `White_Space` (what `char::is_whitespace` tests).
pub open spec fn is_ws(c: char) -> bool {
    let u = c as u32;
    (9 <= u <= 13) || u == 32 || u == 0x85 || u == 0xA0 || u == 0x1680 || (0x2000 <= u <= 0x200A)
        || u == 0x2028 || u == 0x2029 || u == 0x202F || u == 0x205F || u == 0x3000
}

/// `s` without leading and trailing whitespace (`str::trim`).
pub open spec fn trimmed(s: Seq<char>) -> Seq<char> {
    let a = leading_ws(s);
    let b = trailing_ws(s.skip(a));
    s.subrange(a, s.len() - b)
}

/// Number of leading whitespace characters.
pub open spec fn leading_ws(s: Seq<char>) -> int
    decreases s.len(),
{
    if s.len() > 0 && is_ws(s[0]) {
        1 + leading_ws(s.drop_first())
    } else {
        0
    }
}

/// Number of trailing whitespace characters.
pub open spec fn trailing_ws(s: Seq<char>) -> int
    decreases s.len(),
{
    if s.len() > 0 && is_ws(s.last()) {
        1 + trailing_ws(s.drop_last())
    } else {
        0
    }
}

pub fn is_whitespace(c: char) -> (r: bool)
    ensures
        r == is_ws(c),
{
    let u = c as u32;
    (9 <= u && u <= 13) || u == 32 || u == 0x85 || u == 0xA0 || u == 0x1680 || (0x2000 <= u && u
        <= 0x200A) || u == 0x2028 || u == 0x2029 || u == 0x202F || u == 0x205F || u == 0x3000
}

proof fn lemma_leading_bound(s: Seq<char>)
    ensures
        0 <= leading_ws(s) <= s.len(),
    decreases s.len(),
{
    if s.len() > 0 && is_ws(s[0]) {
        lemma_leading_bound(s.drop_first());
    }
}

proof fn lemma_trailing_bound(s: Seq<char>)
    ensures
        0 <= trailing_ws(s) <= s.len(),
    decreases s.len(),
{
    if s.len() > 0 && is_ws(s.last()) {
        lemma_trailing_bound(s.drop_last());
    }
}

/// Trim leading and trailing whitespace.
pub fn trim_chars(s: &[char]) -> (r: Vec<char>)
    ensures
        r@ == trimmed(s@),
{
    let n = s.len();
    let mut a: usize = 0;
    assert(s@.skip(0) =~= s@);
    while a < n && is_whitespace(s[a])
        invariant
            a <= n == s@.len(),
            leading_ws(s@) == a + leading_ws(s@.skip(a as int)),
        decreases n - a,
    {
        assert(s@.skip(a as int).drop_first() =~= s@.skip(a + 1));
        a += 1;
    }
    assert(leading_ws(s@.skip(a as int)) == 0);
    let ghost t = s@.skip(a as int);
    let mut b: usize = n;
    assert(t.take(t.len() as int) =~= t);
    while b > a && is_whitespace(s[b - 1])
        invariant
            a <= b <= n == s@.len(),
            t == s@.skip(a as int),
            trailing_ws(t) == (n - b) + trailing_ws(t.take(b - a)),
        decreases b,
    {
        assert(t.take(b - a).drop_last() =~= t.take(b - a - 1));
        assert(t.take(b - a).last() == s@[b - 1]);
        b -= 1;
    }
    proof {
        if b > a {
            assert(t.take(b - a).last() == s@[b - 1]);
        }
        assert(trailing_ws(t.take(b - a)) == 0);
    }
    let mut r: Vec<char> = Vec::new();
    let mut i: usize = a;
    while i < b
        invariant
            a <= i <= b <= n == s@.len(),
            r@ == s@.subrange(a as int, i as int),
        decreases b - i,
    {
        r.push(s[i]);
        i += 1;
        assert(s@.subrange(a as int, i as int) =~= s@.subrange(a as int, i - 1).push(s@[i - 1]));
    }
    r
}

/// ASCII lower-casing of one character (only `A`-`Z` change).
pub open spec fn ascii_lower(c: char) -> char {
    if 65 <= (c as u32) <= 90 {
        (((c as u32) + 32) as u8) as char
    } else {
        c
    }
}

/// `eq_ignore_ascii_case`: equal after ASCII lower-casing each character.
pub open spec fn eq_ascii_ci(a: Seq<char>, b: Seq<char>) -> bool {
    a.len() == b.len() && forall|i: int| 0 <= i < a.len() ==> ascii_lower(#[trigger] a[i]) == ascii_lower(b[i])
}

pub fn lower_ascii_char(c: char) -> (r: char)
    ensures
        r == ascii_lower(c),
{
    let u = c as u32;
    if 65 <= u && u <= 90 {
        ((u + 32) as u8) as char
    } else {
        c
    }
}

/// Compare two character slices ignoring ASCII case.
pub fn chars_eq_ascii_ci(a: &[char], b: &[char]) -> (r: bool)
    ensures
        r == eq_ascii_ci(a@, b@),
{
    if a.len() != b.len() {
        return false;
    }
    let mut i: usize = 0;
    while i < a.len()
        invariant
            i <= a@.len() == b@.len(),
            forall|j: int| 0 <= j < i ==> ascii_lower(#[trigger] a@[j]) == ascii_lower(b@[j]),
        decreases a.len() - i,
    {
        if lower_ascii_char(a[i]) != lower_ascii_char(b[i]) {
            return false;
        }
        i += 1;
    }
    true
}

} // verus!

verus! {

/// `s` clipped to `max` characters: unchanged when short enough, otherwise
/// its first `max - 1` characters (saturating) and an ellipsis.
pub open spec fn spec_clip(s: Seq<char>, max: nat) -> Seq<char> {
    if s.len() <= max {
        s
    } else {
        s.take(if max >= 1 { max - 1 } else { 0 }).push('…')
    }
}

/// Clip `s` to at most `max` characters, ending a cut with `…`.
pub fn clip(s: &str, max: usize) -> (r: String)
    ensures
        r@ == spec_clip(s@, max as nat),
{
    let cs = chars_of(s);
    if cs.len() <= max {
        return s.to_owned();
    }
    let keep = if max >= 1 {
        max - 1
    } else {
        0
    };
    let mut r = String::new();
    let mut i: usize = 0;
    while i < keep
        invariant
            i <= keep < cs@.len(),
            r@ == cs@.take(i as int),
        decreases keep - i,
    {
        push_char(&mut r, cs[i]);
        i += 1;
        assert(cs@.take(i as int) =~= cs@.take(i - 1).push(cs@[i - 1]));
    }
    push_char(&mut r, '…');
    r
}

/// `s` cut to its first `max` characters with `…` appended when longer.
pub open spec fn spec_truncate(s: Seq<char>, max: nat) -> Seq<char> {
    if s.len() <= max {
        s
    } else {
        s.take(max as int).push('…')
    }
}

/// Truncate `s` to at most `max` characters on a character boundary,
/// appending `…` when it was cut.
pub fn truncate_chars(s: &str, max: usize) -> (r: String)
    ensures
        r@ == spec_truncate(s@, max as nat),
{
    let cs = chars_of(s);
    if cs.len() <= max {
        return s.to_owned();
    }
    let mut r = String::new();
    let mut i: usize = 0;
    while i < max
        invariant
            i <= max < cs@.len(),
            r@ == cs@.take(i as int),
        decreases max - i,
    {
        push_char(&mut r, cs[i]);
        i += 1;
        assert(cs@.take(i as int) =~= cs@.take(i - 1).push(cs@[i - 1]));
    }
    push_char(&mut r, '…');
    r
}

/// Apply a per-character expansion that maps `&`, `<`, `>` and, when
/// `quotes`, also `"` and `'` to their XML entities.
pub open spec fn xml_entity(c: char, quotes: bool) -> Seq<char> {
    if c == '&' {
        "&amp;"@
    } else if c == '<' {
        "&lt;"@
    } else if c == '>' {
        "&gt;"@
    } else if quotes && c == '"' {
        "&quot;"@
    } else if quotes && c == '\'' {
        "&apos;"@
    } else {
        seq![c]
    }
}

/// XML-escape `s` (quotes too when `quotes`).
pub fn xml_escape(s: &str, quotes: bool) -> (r: String)
    ensures
        r@ == expand(s@, |c: char| xml_entity(c, quotes)),
{
    let cs = chars_of(s);
    let mut r = String::new();
    let mut i: usize = 0;
    while i < cs.len()
        invariant
            i <= cs@.len(),
            cs@ == s@,
            r@ == expand(s@.take(i as int), |c: char| xml_entity(c, quotes)),
        decreases cs.len() - i,
    {
        proof {
            lemma_expand_step(s@, i as int, |c: char| xml_entity(c, quotes));
        }
        let c = cs[i];
        if c == '&' {
            push_str(&mut r, "&amp;");
        } else if c == '<' {
            push_str(&mut r, "&lt;");
        } else if c == '>' {
            push_str(&mut r, "&gt;");
        } else if quotes && c == '"' {
            push_str(&mut r, "&quot;");
        } else if quotes && c == '\'' {
            push_str(&mut r, "&apos;");
        } else {
            push_char(&mut r, c);
        }
        assert(r@ =~= expand(s@.take(i + 1), |c: char| xml_entity(c, quotes)));
        i += 1;
    }
    proof {
        lemma_expand_all(s@, |c: char| xml_entity(c, quotes));
    }
    r
}

} // verus!
