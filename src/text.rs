use vstd::prelude::*;
use vstd::string::*;
use vstd::utf8::*;

verus! {

/// Whether two strings hold the same characters, decided on their UTF-8 bytes.
pub fn str_eq(a: &str, b: &str) -> (r: bool)
    ensures
        r == (a@ == b@),
{
    let x = a.as_bytes();
    let y = b.as_bytes();
    proof {
        broadcast use encode_utf8_decode_utf8;
        assert(decode_utf8(encode_utf8(a@)) == a@);
        assert(decode_utf8(encode_utf8(b@)) == b@);
    }
    if x.len() != y.len() {
        return false;
    }
    let mut i: usize = 0;
    while i < x.len()
        invariant
            x@ == a.spec_bytes(),
            y@ == b.spec_bytes(),
            x@.len() == y@.len(),
            0 <= i <= x@.len(),
            x@.subrange(0, i as int) == y@.subrange(0, i as int),
        decreases x@.len() - i,
    {
        if x[i] != y[i] {
            return false;
        }
        proof {
            assert(x@.subrange(0, i + 1) =~= x@.subrange(0, i as int).push(x@[i as int]));
            assert(y@.subrange(0, i + 1) =~= y@.subrange(0, i as int).push(y@[i as int]));
        }
        i += 1;
    }
    proof {
        assert(x@ =~= x@.subrange(0, x@.len() as int));
        assert(y@ =~= y@.subrange(0, y@.len() as int));
    }
    true
}

/// `s` with every non-overlapping occurrence of `f` replaced by `t`, scanning
/// from the left; an empty `f` matches before every character and at the end.
pub open spec fn replace_all<T>(s: Seq<T>, f: Seq<T>, t: Seq<T>) -> Seq<T>
    decreases s.len(),
{
    if f.len() == 0 {
        if s.len() == 0 {
            t
        } else {
            t + seq![s[0]] + replace_all(s.drop_first(), f, t)
        }
    } else if s.len() < f.len() {
        s
    } else if s.subrange(0, f.len() as int) == f {
        t + replace_all(s.subrange(f.len() as int, s.len() as int), f, t)
    } else {
        seq![s[0]] + replace_all(s.drop_first(), f, t)
    }
}

/// Characters with the Unicode `White_Space` property.
pub open spec fn is_white_space(c: char) -> bool {
    ('\u{9}' <= c && c <= '\u{d}') || c == ' ' || c == '\u{85}' || c == '\u{a0}' || c == '\u{1680}'
        || ('\u{2000}' <= c && c <= '\u{200a}') || c == '\u{2028}' || c == '\u{2029}' || c == '\u{202f}'
        || c == '\u{205f}' || c == '\u{3000}'
}

/// `s` without leading white space.
pub open spec fn trim_start(s: Seq<char>) -> Seq<char>
    decreases s.len(),
{
    if s.len() > 0 && is_white_space(s[0]) {
        trim_start(s.drop_first())
    } else {
        s
    }
}

/// `s` without trailing white space.
pub open spec fn trim_end(s: Seq<char>) -> Seq<char>
    decreases s.len(),
{
    if s.len() > 0 && is_white_space(s.last()) {
        trim_end(s.drop_last())
    } else {
        s
    }
}

/// `s` without leading and trailing white space.
pub open spec fn trim(s: Seq<char>) -> Seq<char> {
    trim_end(trim_start(s))
}

/// Position of the first `c` in `s`, or -1.
pub open spec fn first_index(s: Seq<char>, c: char) -> int
    decreases s.len(),
{
    if s.len() == 0 {
        -1
    } else if s[0] == c {
        0
    } else if first_index(s.drop_first(), c) < 0 {
        -1
    } else {
        first_index(s.drop_first(), c) + 1
    }
}

/// A line ended by a line feed loses one carriage return before it.
pub open spec fn strip_cr(l: Seq<char>) -> Seq<char> {
    if l.len() > 0 && l.last() == '\r' {
        l.drop_last()
    } else {
        l
    }
}

/// The lines of `s`: split at each line feed, a carriage return before it
/// dropped, no empty line after a final line feed.
pub open spec fn lines_of(s: Seq<char>) -> Seq<Seq<char>>
    decreases s.len(),
{
    if s.len() == 0 {
        Seq::empty()
    } else {
        let i = first_index(s, '\n');
        if i < 0 {
            seq![s]
        } else if 0 <= i < s.len() {
            seq![strip_cr(s.subrange(0, i))] + lines_of(s.subrange(i + 1, s.len() as int))
        } else {
            Seq::empty()
        }
    }
}

/// Relies on `str::replace`: every non-overlapping match of `from`, scanning
/// from the left, is replaced by `to`.
#[verifier::external_body]
pub(crate) fn replace(s: &str, from: &str, to: &str) -> (r: String)
    ensures
        r@ == replace_all(s@, from@, to@),
{
    s.replace(from, to)
}

/// Relies on `str::trim`: leading and trailing `White_Space` characters are
/// removed.
#[verifier::external_body]
pub(crate) fn trim_str(s: &str) -> (r: &str)
    ensures
        r@ == trim(s@),
{
    s.trim()
}

/// Relies on `str::split_once` with a `char` pattern: splits at the first
/// occurrence of `c`.
#[verifier::external_body]
pub(crate) fn split_once(s: &str, c: char) -> (r: Option<(&str, &str)>)
    ensures
        r is None <==> first_index(s@, c) < 0,
        r matches Some((a, b)) ==> first_index(s@, c) == a@.len() && s@ == a@ + seq![c] + b@,
{
    s.split_once(c)
}

/// Relies on `str::lines`: split at `\n` or `\r\n`, the final line ending
/// optional.
#[verifier::external_body]
pub(crate) fn lines(s: &str) -> (r: Vec<&str>)
    ensures
        r@.len() == lines_of(s@).len(),
        forall|i: int| 0 <= i < r@.len() ==> (#[trigger] r@[i])@ == lines_of(s@)[i],
{
    s.lines().collect()
}

/// Relies on `str::strip_prefix`: `s` without `p` when `s` starts with `p`.
#[verifier::external_body]
pub(crate) fn strip_prefix<'a>(s: &'a str, p: &str) -> (r: Option<&'a str>)
    ensures
        r is Some <==> (p@.len() <= s@.len() && s@.subrange(0, p@.len() as int) == p@),
        r matches Some(t) ==> t@ == s@.subrange(p@.len() as int, s@.len() as int),
{
    s.strip_prefix(p)
}

/// `a` followed by `b`.
pub fn concat(a: &str, b: &str) -> (r: String)
    ensures
        r@ == a@ + b@,
{
    let mut r = a.to_owned();
    r.append(b);
    r
}

/// A leading occurrence of `f` is replaced by `t`.
pub proof fn lemma_replace_leading<T>(x: Seq<T>, f: Seq<T>, t: Seq<T>)
    requires
        f.len() > 0,
    ensures
        replace_all(f + x, f, t) == t + replace_all(x, f, t),
{
    let s = f + x;
    assert(s.subrange(0, f.len() as int) =~= f);
    assert(s.subrange(f.len() as int, s.len() as int) =~= x);
}

/// `f` occurs somewhere in `s`.
pub open spec fn occurs_in<T>(s: Seq<T>, f: Seq<T>) -> bool {
    exists|i: int| 0 <= i && i + f.len() <= s.len() && #[trigger] s.subrange(i, i + f.len()) == f
}

proof fn lemma_no_occurrence_tail<T>(s: Seq<T>, f: Seq<T>, k: int)
    requires
        !occurs_in(s, f),
        0 <= k <= s.len(),
    ensures
        !occurs_in(s.subrange(k, s.len() as int), f),
{
    let t = s.subrange(k, s.len() as int);
    if occurs_in(t, f) {
        let i = choose|i: int| 0 <= i && i + f.len() <= t.len() && #[trigger] t.subrange(i, i + f.len()) == f;
        assert(s.subrange(i + k, i + k + f.len()) =~= t.subrange(i, i + f.len()));
    }
}

/// Text in which `f` does not occur is left as it is.
proof fn lemma_replace_none<T>(s: Seq<T>, f: Seq<T>, t: Seq<T>)
    requires
        f.len() > 0,
        !occurs_in(s, f),
    ensures
        replace_all(s, f, t) == s,
    decreases s.len(),
{
    if s.len() >= f.len() {
        assert(s.subrange(0, 0 + f.len() as int) != f);
        lemma_no_occurrence_tail(s, f, 1);
        assert(s.drop_first() =~= s.subrange(1, s.len() as int));
        lemma_replace_none(s.drop_first(), f, t);
        assert(s =~= seq![s[0]] + s.drop_first());
    }
}

/// While the result holds no first element of `t`, it copies `s`.
proof fn lemma_replace_copies<T>(s: Seq<T>, f: Seq<T>, t: Seq<T>, n: int)
    requires
        f.len() > 0,
        t.len() > 0,
        0 <= n <= replace_all(s, f, t).len(),
        forall|k: int| 0 <= k < n ==> replace_all(s, f, t)[k] != t[0],
    ensures
        n <= s.len(),
        s.subrange(0, n) == replace_all(s, f, t).subrange(0, n),
    decreases s.len(),
{
    let w = replace_all(s, f, t);
    if n > 0 {
        if s.len() < f.len() {
        } else if s.subrange(0, f.len() as int) == f {
            assert(w[0] == t[0]);
        } else {
            let x = s.drop_first();
            assert(w == seq![s[0]] + replace_all(x, f, t));
            assert forall|k: int| 0 <= k < n - 1 implies replace_all(x, f, t)[k] != t[0] by {
                assert(w[k + 1] == replace_all(x, f, t)[k]);
            }
            lemma_replace_copies(x, f, t, n - 1);
            assert(s.subrange(0, n) =~= seq![s[0]] + x.subrange(0, n - 1));
            assert(w.subrange(0, n) =~= seq![s[0]] + replace_all(x, f, t).subrange(0, n - 1));
        }
    } else {
        assert(s.subrange(0, 0) =~= w.subrange(0, 0));
    }
}

/// Turning `r` into `p` and back gives the same text again, when `p` does
/// not occur in the text, `r` is not empty and the first character of `p`
/// does not come back later in `p`.
pub proof fn lemma_replace_round_trip(v: Seq<char>, r: Seq<char>, p: Seq<char>)
    requires
        r.len() > 0,
        p.len() > 0,
        !p.drop_first().contains(p[0]),
        !occurs_in(v, p),
    ensures
        replace_all(replace_all(v, r, p), p, r) == v,
    decreases v.len(),
{
    if v.len() < r.len() {
        lemma_replace_none(v, p, r);
    } else if v.subrange(0, r.len() as int) == r {
        let x = v.subrange(r.len() as int, v.len() as int);
        lemma_no_occurrence_tail(v, p, r.len() as int);
        lemma_replace_round_trip(x, r, p);
        lemma_replace_leading(replace_all(x, r, p), p, r);
        assert(v =~= r + x);
    } else {
        let x = v.drop_first();
        lemma_no_occurrence_tail(v, p, 1);
        assert(x =~= v.subrange(1, v.len() as int));
        lemma_replace_round_trip(x, r, p);
        let w1 = replace_all(x, r, p);
        let w = seq![v[0]] + w1;
        assert(replace_all(v, r, p) == w);
        if w.len() >= p.len() && w.subrange(0, p.len() as int) == p {
            let n = p.len() - 1;
            assert forall|k: int| 0 <= k < n implies w1[k] != p[0] by {
                assert(w1[k] == w[k + 1]);
                assert(p.drop_first()[k] == p[k + 1]);
                assert(p.drop_first().contains(p[k + 1]));
            }
            lemma_replace_copies(x, r, p, n);
            assert(v.subrange(0, 0 + p.len() as int) =~= p) by {
                assert forall|k: int| 0 <= k < p.len() implies v[k] == p[k] by {
                    if k > 0 {
                        assert(x.subrange(0, n)[k - 1] == w1.subrange(0, n)[k - 1]);
                        assert(w[k] == w1[k - 1]);
                    }
                }
            }
            assert(false);
        }
        assert(w.drop_first() =~= w1);
        assert(replace_all(w, p, r) == seq![v[0]] + replace_all(w1, p, r));
        assert(v =~= seq![v[0]] + x);
    }
}

/// Every element of the result comes from `s` or from `t`.
pub proof fn lemma_replace_elements<T>(s: Seq<T>, f: Seq<T>, t: Seq<T>, c: T)
    requires
        f.len() > 0,
        !s.contains(c),
        !t.contains(c),
    ensures
        !replace_all(s, f, t).contains(c),
    decreases s.len(),
{
    if s.len() >= f.len() {
        if s.subrange(0, f.len() as int) == f {
            let x = s.subrange(f.len() as int, s.len() as int);
            assert(!x.contains(c)) by {
                if x.contains(c) {
                    let i = choose|i: int| 0 <= i < x.len() && x[i] == c;
                    assert(s[i + f.len()] == c);
                }
            }
            lemma_replace_elements(x, f, t, c);
            let r = t + replace_all(x, f, t);
            if r.contains(c) {
                let i = choose|i: int| 0 <= i < r.len() && r[i] == c;
                if i < t.len() {
                    assert(t[i] == c);
                } else {
                    assert(replace_all(x, f, t)[i - t.len()] == c);
                }
            }
        } else {
            let x = s.drop_first();
            assert(!x.contains(c)) by {
                if x.contains(c) {
                    let i = choose|i: int| 0 <= i < x.len() && x[i] == c;
                    assert(s[i + 1] == c);
                }
            }
            assert(s.contains(s[0]));
            lemma_replace_elements(x, f, t, c);
            let r = seq![s[0]] + replace_all(x, f, t);
            if r.contains(c) {
                let i = choose|i: int| 0 <= i < r.len() && r[i] == c;
                if i > 0 {
                    assert(replace_all(x, f, t)[i - 1] == c);
                }
            }
        }
    }
}

/// The last element of a non-empty result is the last of `s` or of `t`.
pub proof fn lemma_replace_last<T>(s: Seq<T>, f: Seq<T>, t: Seq<T>)
    requires
        f.len() > 0,
        t.len() > 0,
        s.len() > 0,
    ensures
        replace_all(s, f, t).len() > 0,
        replace_all(s, f, t).last() == s.last() || replace_all(s, f, t).last() == t.last(),
    decreases s.len(),
{
    if s.len() >= f.len() {
        if s.subrange(0, f.len() as int) == f {
            let x = s.subrange(f.len() as int, s.len() as int);
            if x.len() > 0 {
                lemma_replace_last(x, f, t);
                assert(x.last() == s.last());
            } else {
                assert(replace_all(x, f, t) =~= x);
            }
        } else {
            let x = s.drop_first();
            if x.len() > 0 {
                lemma_replace_last(x, f, t);
                assert(x.last() == s.last());
            } else {
                assert(replace_all(x, f, t) =~= x);
            }
        }
    }
}

/// `first_index` finds an occurrence exactly when there is one.
pub proof fn lemma_first_index(s: Seq<char>, c: char)
    ensures
        -1 <= first_index(s, c) < s.len(),
        first_index(s, c) >= 0 ==> s[first_index(s, c)] == c,
        first_index(s, c) < 0 <==> !s.contains(c),
    decreases s.len(),
{
    if s.len() > 0 {
        lemma_first_index(s.drop_first(), c);
        if s.contains(c) && s[0] != c {
            let i = choose|i: int| 0 <= i < s.len() && s[i] == c;
            assert(s.drop_first()[i - 1] == c);
        }
        if s.drop_first().contains(c) {
            let i = choose|i: int| 0 <= i < s.drop_first().len() && s.drop_first()[i] == c;
            assert(s[i + 1] == c);
        }
    }
}

/// Where `c` first occurs in a concatenation.
pub proof fn lemma_first_index_concat(a: Seq<char>, b: Seq<char>, c: char)
    ensures
        -1 <= first_index(a, c) < a.len(),
        first_index(a, c) >= 0 ==> a[first_index(a, c)] == c,
        first_index(a, c) >= 0 ==> first_index(a + b, c) == first_index(a, c),
        first_index(a, c) < 0 && first_index(b, c) >= 0 ==> first_index(a + b, c) == a.len() + first_index(b, c),
        first_index(a, c) < 0 && first_index(b, c) < 0 ==> first_index(a + b, c) < 0,
        first_index(a, c) < 0 <==> !a.contains(c),
    decreases a.len(),
{
    lemma_first_index(a, c);
    lemma_first_index(b, c);
    if a.len() > 0 {
        lemma_first_index_concat(a.drop_first(), b, c);
        assert((a + b).drop_first() =~= a.drop_first() + b);
        if a.contains(c) && a[0] != c {
            let i = choose|i: int| 0 <= i < a.len() && a[i] == c;
            assert(a.drop_first()[i - 1] == c);
        }
        if a.drop_first().contains(c) {
            let i = choose|i: int| 0 <= i < a.drop_first().len() && a.drop_first()[i] == c;
            assert(a[i + 1] == c);
        }
    } else {
        assert(a + b =~= b);
    }
}

/// Text that ends with a line feed splits into lines independently of what
/// follows it.
pub proof fn lemma_lines_concat(a: Seq<char>, b: Seq<char>)
    requires
        a.len() == 0 || a.last() == '\n',
    ensures
        lines_of(a + b) == lines_of(a) + lines_of(b),
    decreases a.len(),
{
    if a.len() == 0 {
        assert(a + b =~= b);
        assert(lines_of(a) =~= Seq::<Seq<char>>::empty());
        assert(Seq::<Seq<char>>::empty() + lines_of(b) =~= lines_of(b));
    } else {
        lemma_first_index_concat(a, b, '\n');
        assert(a.contains('\n')) by {
            assert(a[a.len() - 1] == '\n');
        }
        let i = first_index(a, '\n');
        let rest = a.subrange(i + 1, a.len() as int);
        assert((a + b).subrange(0, i) =~= a.subrange(0, i));
        assert((a + b).subrange(i + 1, (a + b).len() as int) =~= rest + b);
        if rest.len() > 0 {
            assert(rest.last() == a.last());
        }
        lemma_lines_concat(rest, b);
        assert(lines_of(a + b) =~= seq![strip_cr(a.subrange(0, i))] + lines_of(rest + b));
    }
}

/// A line without line feed, ended by one, is that one line.
pub proof fn lemma_single_line(l: Seq<char>)
    requires
        !l.contains('\n'),
        l.len() == 0 || l.last() != '\r',
    ensures
        lines_of(l + seq!['\n']) == seq![l],
{
    let s = l + seq!['\n'];
    lemma_first_index_concat(l, seq!['\n'], '\n');
    assert(first_index(seq!['\n'], '\n') == 0);
    assert(s.subrange(0, l.len() as int) =~= l);
    assert(s.subrange((l.len() + 1) as int, s.len() as int) =~= Seq::<char>::empty());
    assert(lines_of(Seq::<char>::empty()) =~= Seq::<Seq<char>>::empty());
    assert(lines_of(s) =~= seq![l]);
}

/// Text without white space at either end is its own trim.
pub proof fn lemma_trim_identity(s: Seq<char>)
    requires
        s.len() > 0,
        !is_white_space(s[0]),
        !is_white_space(s.last()),
    ensures
        trim(s) == s,
{
    assert(trim_start(s) == s);
    assert(trim_end(s) == s);
}

/// Lexicographic order of byte strings.
pub open spec fn lex_lt(a: Seq<u8>, b: Seq<u8>) -> bool
    decreases a.len(),
{
    if a.len() == 0 {
        b.len() > 0
    } else if b.len() == 0 {
        false
    } else if a[0] != b[0] {
        a[0] < b[0]
    } else {
        lex_lt(a.drop_first(), b.drop_first())
    }
}

/// `a` comes before `b` in the order of their UTF-8 bytes.
pub open spec fn path_lt(a: Seq<char>, b: Seq<char>) -> bool {
    lex_lt(encode_utf8(a), encode_utf8(b))
}

pub proof fn lemma_lex_trichotomy(a: Seq<u8>, b: Seq<u8>)
    ensures
        lex_lt(a, b) || a == b || lex_lt(b, a),
        !(lex_lt(a, b) && lex_lt(b, a)),
        !lex_lt(a, a),
    decreases a.len(),
{
    if a.len() > 0 && b.len() > 0 {
        lemma_lex_trichotomy(a.drop_first(), b.drop_first());
        if a[0] == b[0] && a.drop_first() == b.drop_first() {
            assert(a =~= seq![a[0]] + a.drop_first());
            assert(b =~= seq![b[0]] + b.drop_first());
        }
    } else if a.len() == 0 && b.len() == 0 {
        assert(a =~= b);
    }
    if a.len() > 0 {
        lemma_lex_trichotomy(a.drop_first(), a.drop_first());
    }
}

pub proof fn lemma_lex_transitive(a: Seq<u8>, b: Seq<u8>, c: Seq<u8>)
    requires
        lex_lt(a, b),
        lex_lt(b, c),
    ensures
        lex_lt(a, c),
    decreases a.len(),
{
    if a.len() > 0 && b.len() > 0 && c.len() > 0 && a[0] == b[0] && b[0] == c[0] {
        lemma_lex_transitive(a.drop_first(), b.drop_first(), c.drop_first());
    }
}

pub proof fn lemma_path_order(a: Seq<char>, b: Seq<char>)
    ensures
        path_lt(a, b) || a == b || path_lt(b, a),
        !(path_lt(a, b) && path_lt(b, a)),
        !path_lt(a, a),
{
    broadcast use encode_utf8_decode_utf8;

    lemma_lex_trichotomy(encode_utf8(a), encode_utf8(b));
    lemma_lex_trichotomy(encode_utf8(a), encode_utf8(a));
    if encode_utf8(a) == encode_utf8(b) {
        assert(decode_utf8(encode_utf8(a)) == a);
        assert(decode_utf8(encode_utf8(b)) == b);
    }
}

/// Whether `a` comes before `b` in the order of their UTF-8 bytes.
pub fn path_before(a: &str, b: &str) -> (r: bool)
    ensures
        r == path_lt(a@, b@),
{
    let x = a.as_bytes();
    let y = b.as_bytes();
    let mut i: usize = 0;
    proof {
        assert(x@.subrange(0, x@.len() as int) =~= x@);
        assert(y@.subrange(0, y@.len() as int) =~= y@);
    }
    while i < x.len() && i < y.len() && x[i] == y[i]
        invariant
            x@ == encode_utf8(a@),
            y@ == encode_utf8(b@),
            0 <= i <= x@.len(),
            i <= y@.len(),
            lex_lt(x@, y@) == lex_lt(x@.subrange(i as int, x@.len() as int), y@.subrange(i as int, y@.len() as int)),
        decreases x@.len() - i,
    {
        proof {
            let xs = x@.subrange(i as int, x@.len() as int);
            let ys = y@.subrange(i as int, y@.len() as int);
            assert(xs.drop_first() =~= x@.subrange(i + 1, x@.len() as int));
            assert(ys.drop_first() =~= y@.subrange(i + 1, y@.len() as int));
        }
        i += 1;
    }
    proof {
        assert(x@.subrange(0, x@.len() as int) =~= x@);
        assert(y@.subrange(0, y@.len() as int) =~= y@);
    }
    if i == x.len() {
        i < y.len()
    } else if i == y.len() {
        false
    } else {
        x[i] < y[i]
    }
}

} // verus!
