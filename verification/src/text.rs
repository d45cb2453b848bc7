use vstd::prelude::*;

verus! {

/// Collects the characters of `s` into a vector.
pub fn chars_of(s: &str) -> (res: Vec<char>)
    ensures
        res@ == s@,
{
    let mut res: Vec<char> = Vec::new();
    for c in it: s.chars()
        invariant
            res@ == it.seq().take(it.index() as int),
    {
        res.push(c);
    }
    res
}

/// Appends one character to `s`; calls `String::push`.
#[verifier::external_body]
fn push_char(s: &mut String, c: char)
    ensures
        final(s)@ == old(s)@.push(c),
{
    s.push(c);
}

/// Builds a string from a vector of characters.
pub fn string_from(v: &Vec<char>) -> (res: String)
    ensures
        res@ == v@,
{
    let mut res = String::new();
    let mut i: usize = 0;
    while i < v.len()
        invariant
            i <= v.len(),
            res@ == v@.take(i as int),
        decreases v.len() - i,
    {
        push_char(&mut res, v[i]);
        assert(v@.take(i as int).push(v@[i as int]) =~= v@.take(i + 1));
        i = i + 1;
    }
    assert(v@.take(v.len() as int) =~= v@);
    res
}

/// Appends every character of `src` to `dst`.
pub fn append_chars(dst: &mut Vec<char>, src: &Vec<char>)
    ensures
        final(dst)@ == old(dst)@ + src@,
{
    let mut i: usize = 0;
    while i < src.len()
        invariant
            i <= src.len(),
            dst@ == old(dst)@ + src@.take(i as int),
        decreases src.len() - i,
    {
        dst.push(src[i]);
        assert(src@.take(i as int).push(src@[i as int]) =~= src@.take(i + 1));
        i = i + 1;
    }
    assert(src@.take(src.len() as int) =~= src@);
}

/// Appends the characters of a string slice to `dst`.
pub fn append_str(dst: &mut Vec<char>, s: &str)
    ensures
        final(dst)@ == old(dst)@ + s@,
{
    let v = chars_of(s);
    append_chars(dst, &v);
}

// ---------------------------------------------------------------------------
// Ordering of strings: `String`'s `Ord` compares UTF-8 bytes, which orders
// strings exactly as comparing their characters by code point, left to right,
// a proper prefix coming first.

/// `a` comes before `b` as characters (code points).
pub open spec fn char_lt(a: char, b: char) -> bool {
    (a as u32) < (b as u32)
}

/// Strict lexicographic order on character sequences.
pub open spec fn seq_lt(a: Seq<char>, b: Seq<char>) -> bool
    decreases a.len(),
{
    if a.len() == 0 {
        b.len() > 0
    } else if b.len() == 0 {
        false
    } else if a[0] == b[0] {
        seq_lt(a.drop_first(), b.drop_first())
    } else {
        char_lt(a[0], b[0])
    }
}

pub proof fn lemma_char_u32_injective(a: char, b: char)
    ensures
        (a as u32) == (b as u32) ==> a == b,
{
}

/// `seq_lt` is irreflexive.
pub proof fn lemma_seq_lt_irreflexive(a: Seq<char>)
    ensures
        !seq_lt(a, a),
    decreases a.len(),
{
    if a.len() > 0 {
        lemma_seq_lt_irreflexive(a.drop_first());
    }
}

/// Any two sequences are equal or ordered one way or the other, and never both ways.
pub proof fn lemma_seq_lt_trichotomy(a: Seq<char>, b: Seq<char>)
    ensures
        a == b || seq_lt(a, b) || seq_lt(b, a),
        !(seq_lt(a, b) && seq_lt(b, a)),
        seq_lt(a, b) ==> a != b,
    decreases a.len(),
{
    if a.len() == 0 || b.len() == 0 {
        if a.len() == 0 && b.len() == 0 {
            assert(a =~= b);
        }
    } else if a[0] == b[0] {
        lemma_seq_lt_trichotomy(a.drop_first(), b.drop_first());
        if a.drop_first() == b.drop_first() {
            assert(a =~= seq![a[0]] + a.drop_first());
            assert(b =~= seq![b[0]] + b.drop_first());
        }
    } else {
        lemma_char_u32_injective(a[0], b[0]);
    }
    if seq_lt(a, b) {
        if a == b {
            lemma_seq_lt_irreflexive(a);
        }
    }
}

/// `seq_lt` is transitive.
pub proof fn lemma_seq_lt_transitive(a: Seq<char>, b: Seq<char>, c: Seq<char>)
    requires
        seq_lt(a, b),
        seq_lt(b, c),
    ensures
        seq_lt(a, c),
    decreases a.len(),
{
    if a.len() > 0 && b.len() > 0 && c.len() > 0 {
        if a[0] == b[0] && b[0] == c[0] {
            lemma_seq_lt_transitive(a.drop_first(), b.drop_first(), c.drop_first());
        }
    }
}

/// Compares two character sequences; returns whether `a` comes strictly before `b`.
pub fn chars_lt(a: &Vec<char>, b: &Vec<char>) -> (res: bool)
    ensures
        res == seq_lt(a@, b@),
{
    let mut i: usize = 0;
    assert(a@.skip(0) =~= a@);
    assert(b@.skip(0) =~= b@);
    while i < a.len() && i < b.len()
        invariant
            i <= a.len(),
            i <= b.len(),
            seq_lt(a@, b@) == seq_lt(a@.skip(i as int), b@.skip(i as int)),
        decreases a.len() - i,
    {
        if a[i] != b[i] {
            assert(a@.skip(i as int)[0] == a@[i as int]);
            assert(b@.skip(i as int)[0] == b@[i as int]);
            return (a[i] as u32) < (b[i] as u32);
        }
        assert(a@.skip(i as int).drop_first() =~= a@.skip(i + 1));
        assert(b@.skip(i as int).drop_first() =~= b@.skip(i + 1));
        i = i + 1;
    }
    i < b.len()
}

/// Compares two character sequences for equality.
pub fn chars_eq(a: &Vec<char>, b: &Vec<char>) -> (res: bool)
    ensures
        res == (a@ == b@),
{
    if a.len() != b.len() {
        return false;
    }
    let mut i: usize = 0;
    while i < a.len()
        invariant
            i <= a.len(),
            a.len() == b.len(),
            a@.take(i as int) == b@.take(i as int),
        decreases a.len() - i,
    {
        if a[i] != b[i] {
            assert(a@[i as int] != b@[i as int]);
            return false;
        }
        assert(a@.take(i + 1) =~= a@.take(i as int).push(a@[i as int]));
        assert(b@.take(i + 1) =~= b@.take(i as int).push(b@[i as int]));
        i = i + 1;
    }
    assert(a@.take(a.len() as int) =~= a@);
    assert(b@.take(b.len() as int) =~= b@);
    true
}

// ---------------------------------------------------------------------------
// Replacing every occurrence of a pattern, as `str::replace` does: matches are
// found from the left and do not overlap.

/// `s` with every non-overlapping occurrence of `pat`, searched left to right,
/// replaced by `to`.
pub open spec fn replace(s: Seq<char>, pat: Seq<char>, to: Seq<char>) -> Seq<char>
    recommends
        pat.len() > 0,
    decreases s.len(),
{
    if pat.len() == 0 || s.len() < pat.len() {
        s
    } else if s.take(pat.len() as int) == pat {
        to + replace(s.skip(pat.len() as int), pat, to)
    } else {
        seq![s[0]] + replace(s.drop_first(), pat, to)
    }
}

/// Replacing one character by another everywhere leaves none of it and
/// keeps the length.
pub proof fn lemma_replace_char(s: Seq<char>, c: char, d: char)
    requires
        c != d,
    ensures
        replace(s, seq![c], seq![d]).len() == s.len(),
        forall|i: int| 0 <= i < s.len() ==> #[trigger] replace(s, seq![c], seq![d])[i] == if s[i] == c {
            d
        } else {
            s[i]
        },
    decreases s.len(),
{
    if s.len() > 0 {
        let t = s.drop_first();
        lemma_replace_char(t, c, d);
        let r = replace(s, seq![c], seq![d]);
        if s.take(1) == seq![c] {
            assert(s[0] == seq![c][0]);
            assert(s.skip(1) =~= t);
        } else {
            assert(s.take(1) =~= seq![s[0]]);
        }
        assert forall|i: int| 0 <= i < s.len() implies #[trigger] r[i] == if s[i] == c {
            d
        } else {
            s[i]
        } by {
            if i > 0 {
                assert(s[i] == t[i - 1]);
            }
        }
    }
}

/// No two `{` stand next to each other in `s`.
pub open spec fn no_double_brace(s: Seq<char>) -> bool {
    forall|i: int| 0 <= i < s.len() - 1 ==> !(#[trigger] s[i] == '{' && s[i + 1] == '{')
}

/// `s` does not end with `{`.
pub open spec fn open_end_free(s: Seq<char>) -> bool {
    s.len() == 0 || s.last() != '{'
}

/// Text without `{` has no double brace and does not end with one.
pub proof fn lemma_brace_free(s: Seq<char>)
    requires
        forall|i: int| 0 <= i < s.len() ==> #[trigger] s[i] != '{',
    ensures
        no_double_brace(s),
        open_end_free(s),
{
}

/// Joining two texts without a double brace, the first not ending with `{`,
/// gives a text without a double brace; its end is that of the second, or of
/// the first where the second is empty.
pub proof fn lemma_double_brace_join(x: Seq<char>, y: Seq<char>)
    requires
        no_double_brace(x),
        no_double_brace(y),
        open_end_free(x),
    ensures
        no_double_brace(x + y),
        open_end_free(y) ==> open_end_free(x + y),
{
    let s = x + y;
    assert forall|i: int| 0 <= i < s.len() - 1 implies !(#[trigger] s[i] == '{' && s[i + 1] == '{') by {
        if i + 1 < x.len() {
            assert(s[i] == x[i] && s[i + 1] == x[i + 1]);
        } else if i + 1 == x.len() {
            assert(s[i] == x.last());
        } else {
            assert(s[i] == y[i - x.len()] && s[i + 1] == y[i - x.len() + 1]);
        }
    }
    if y.len() == 0 {
        assert(s =~= x);
    } else {
        assert(s.last() == y.last());
    }
}

/// A pattern that starts with a double brace cannot begin inside text that
/// has none and does not end with `{`: such text passes through unchanged.
pub proof fn lemma_replace_passes(x: Seq<char>, y: Seq<char>, pat: Seq<char>, to: Seq<char>)
    requires
        pat.len() >= 2,
        pat[0] == '{',
        pat[1] == '{',
        no_double_brace(x),
        open_end_free(x),
    ensures
        replace(x + y, pat, to) == x + replace(y, pat, to),
    decreases x.len(),
{
    let s = x + y;
    if x.len() == 0 {
        assert(s =~= y);
    } else if s.len() < pat.len() {
        assert(replace(y, pat, to) == y);
    } else {
        if s.take(pat.len() as int) == pat {
            assert(s.take(pat.len() as int)[0] == s[0]);
            assert(s.take(pat.len() as int)[1] == s[1]);
            if x.len() >= 2 {
                assert(s[0] == x[0] && s[1] == x[1]);
            } else {
                assert(s[0] == x.last());
            }
        }
        let t = x.drop_first();
        assert(s.drop_first() =~= t + y);
        assert forall|i: int| 0 <= i < t.len() - 1 implies !(#[trigger] t[i] == '{' && t[i + 1] == '{') by {
            assert(t[i] == x[i + 1] && t[i + 1] == x[i + 2]);
        }
        if t.len() > 0 {
            assert(t.last() == x.last());
        }
        lemma_replace_passes(t, y, pat, to);
        assert(seq![s[0]] + (t + replace(y, pat, to)) =~= x + replace(y, pat, to));
    }
}

/// Text that starts with the pattern has it replaced there.
pub proof fn lemma_replace_hit(y: Seq<char>, pat: Seq<char>, to: Seq<char>)
    requires
        pat.len() > 0,
    ensures
        replace(pat + y, pat, to) == to + replace(y, pat, to),
{
    let s = pat + y;
    assert(s.take(pat.len() as int) =~= pat);
    assert(s.skip(pat.len() as int) =~= y);
}

/// A piece that does not start the pattern, whose double braces can only be
/// at its very start, and that does not end with `{`, passes through
/// unchanged.
pub proof fn lemma_replace_skips(q: Seq<char>, y: Seq<char>, pat: Seq<char>, to: Seq<char>)
    requires
        pat.len() >= 2,
        pat[0] == '{',
        pat[1] == '{',
        q.len() >= 1,
        (q + y).len() < pat.len() || (q + y).take(pat.len() as int) != pat,
        no_double_brace(q.drop_first()),
        q.last() != '{',
    ensures
        replace(q + y, pat, to) == q + replace(y, pat, to),
{
    let s = q + y;
    if s.len() < pat.len() {
        assert(replace(y, pat, to) == y);
    } else {
        let t = q.drop_first();
        assert(s.drop_first() =~= t + y);
        if t.len() > 0 {
            assert(t.last() == q.last());
        }
        lemma_replace_passes(t, y, pat, to);
        assert(seq![s[0]] + (t + replace(y, pat, to)) =~= q + replace(y, pat, to));
    }
}

/// Whether `pat` occurs in `s` at position `at`.
fn matches_at(s: &Vec<char>, at: usize, pat: &Vec<char>) -> (res: bool)
    requires
        at + pat.len() <= s.len(),
    ensures
        res == (s@.skip(at as int).take(pat.len() as int) == pat@),
{
    let mut j: usize = 0;
    while j < pat.len()
        invariant
            j <= pat.len(),
            at + pat.len() <= s.len(),
            forall|k: int| 0 <= k < j ==> s@[at + k] == pat@[k],
        decreases pat.len() - j,
    {
        if s[at + j] != pat[j] {
            assert(s@.skip(at as int).take(pat.len() as int)[j as int] != pat@[j as int]);
            return false;
        }
        j = j + 1;
    }
    assert(s@.skip(at as int).take(pat.len() as int) =~= pat@);
    true
}

/// Replaces every occurrence of `pat` in `s` by `to`.
pub fn replace_all(s: &Vec<char>, pat: &Vec<char>, to: &Vec<char>) -> (res: Vec<char>)
    requires
        pat.len() > 0,
    ensures
        res@ == replace(s@, pat@, to@),
{
    let mut out: Vec<char> = Vec::new();
    let mut i: usize = 0;
    assert(s@.skip(0) =~= s@);
    assert(out@ + replace(s@, pat@, to@) =~= replace(s@, pat@, to@));
    while i < s.len()
        invariant
            i <= s.len(),
            pat.len() > 0,
            out@ + replace(s@.skip(i as int), pat@, to@) == replace(s@, pat@, to@),
        decreases s.len() - i,
    {
        let ghost rest = s@.skip(i as int);
        if pat.len() <= s.len() - i && matches_at(s, i, pat) {
            assert(rest.take(pat.len() as int) == pat@);
            assert(rest.skip(pat.len() as int) =~= s@.skip(i + pat.len()));
            append_chars(&mut out, to);
            proof {
                assert(out@ + replace(s@.skip(i + pat.len()), pat@, to@) =~= (out@.take(
                    out@.len() - to@.len(),
                ) + replace(rest, pat@, to@)));
            }
            i = i + pat.len();
        } else {
            if pat.len() <= s.len() - i {
                assert(rest.take(pat.len() as int) != pat@);
            }
            assert(rest.drop_first() =~= s@.skip(i + 1));
            let ghost before = out@;
            out.push(s[i]);
            assert(out@ + replace(s@.skip(i + 1), pat@, to@) =~= before + replace(
                rest,
                pat@,
                to@,
            ));
            i = i + 1;
        }
    }
    assert(s@.skip(s.len() as int) =~= Seq::<char>::empty());
    assert(out@ + replace(s@.skip(i as int), pat@, to@) =~= out@);
    out
}


// ---------------------------------------------------------------------------
// Trimming white space, as `str::trim` does.

/// `char::is_whitespace`: the characters with the Unicode `White_Space` property.
pub open spec fn is_white_space(c: char) -> bool {
    let u = c as u32;
    ||| u == 0x20
    ||| 0x09 <= u <= 0x0D
    ||| u == 0x85
    ||| u == 0xA0
    ||| u == 0x1680
    ||| 0x2000 <= u <= 0x200A
    ||| u == 0x2028
    ||| u == 0x2029
    ||| u == 0x202F
    ||| u == 0x205F
    ||| u == 0x3000
}

/// `s` without its leading white space.
pub open spec fn trim_start(s: Seq<char>) -> Seq<char>
    decreases s.len(),
{
    if s.len() > 0 && is_white_space(s[0]) {
        trim_start(s.drop_first())
    } else {
        s
    }
}

/// `s` without its trailing white space.
pub open spec fn trim_end(s: Seq<char>) -> Seq<char>
    decreases s.len(),
{
    if s.len() > 0 && is_white_space(s.last()) {
        trim_end(s.drop_last())
    } else {
        s
    }
}

/// `s` without leading and trailing white space (`str::trim`).
pub open spec fn trim(s: Seq<char>) -> Seq<char> {
    trim_end(trim_start(s))
}

fn white_space(c: char) -> (res: bool)
    ensures
        res == is_white_space(c),
{
    let u = c as u32;
    u == 0x20 || (0x09 <= u && u <= 0x0D) || u == 0x85 || u == 0xA0 || u == 0x1680 || (0x2000 <= u
        && u <= 0x200A) || u == 0x2028 || u == 0x2029 || u == 0x202F || u == 0x205F || u == 0x3000
}

/// Removes leading and trailing white space.
pub fn trim_chars(s: &Vec<char>) -> (res: Vec<char>)
    ensures
        res@ == trim(s@),
{
    let mut a: usize = 0;
    assert(s@.skip(0) =~= s@);
    while a < s.len() && white_space(s[a])
        invariant
            a <= s.len(),
            trim_start(s@) == trim_start(s@.skip(a as int)),
        decreases s.len() - a,
    {
        assert(s@.skip(a as int).drop_first() =~= s@.skip(a + 1));
        a = a + 1;
    }
    let ghost t = s@.skip(a as int);
    assert(trim_start(s@) == t);
    let mut b: usize = s.len();
    assert(t.take(t.len() as int) =~= t);
    while b > a && white_space(s[b - 1])
        invariant
            a <= b <= s.len(),
            t == s@.skip(a as int),
            trim_end(t) == trim_end(t.take(b - a)),
        decreases b,
    {
        assert(t.take(b - a).last() == s@[b - 1]);
        assert(t.take(b - a).drop_last() =~= t.take(b - 1 - a));
        b = b - 1;
    }
    if b > a {
        assert(t.take(b - a).last() == s@[b - 1]);
    }
    assert(trim_end(t.take(b - a)) == t.take(b - a));
    let mut out: Vec<char> = Vec::new();
    let mut i: usize = a;
    while i < b
        invariant
            a <= i <= b <= s.len(),
            out@ == s@.subrange(a as int, i as int),
        decreases b - i,
    {
        out.push(s[i]);
        assert(out@ =~= s@.subrange(a as int, i + 1));
        i = i + 1;
    }
    assert(out@ =~= t.take(b - a));
    out
}

} // verus!
