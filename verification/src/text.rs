//! Character-level text model shared by the parsers: whitespace, trimming,
//! whitespace tokenisation, UTF-8 byte lengths, and conversions between
//! strings and character vectors.
use vstd::prelude::*;

verus! {

/// The Unicode `White_Space` property, the one that `char::is_whitespace`,
/// `str::trim` and `str::split_whitespace` use.
pub open spec fn is_ws(c: char) -> bool {
    ||| ('\u{9}' <= c && c <= '\u{d}')
    ||| c == ' '
    ||| c == '\u{85}'
    ||| c == '\u{a0}'
    ||| c == '\u{1680}'
    ||| ('\u{2000}' <= c && c <= '\u{200a}')
    ||| c == '\u{2028}'
    ||| c == '\u{2029}'
    ||| c == '\u{202f}'
    ||| c == '\u{205f}'
    ||| c == '\u{3000}'
}

/// Whether `c` is a whitespace character.
pub fn is_whitespace(c: char) -> (b: bool)
    ensures
        b == is_ws(c),
{
    ('\u{9}' <= c && c <= '\u{d}') || c == ' ' || c == '\u{85}' || c == '\u{a0}' || c
        == '\u{1680}' || ('\u{2000}' <= c && c <= '\u{200a}') || c == '\u{2028}' || c
        == '\u{2029}' || c == '\u{202f}' || c == '\u{205f}' || c == '\u{3000}'
}

/// Every character of `s` is whitespace (this includes the empty sequence).
pub open spec fn is_blank(s: Seq<char>) -> bool {
    forall|i: int| 0 <= i < s.len() ==> is_ws(#[trigger] s[i])
}

/// `s` without its leading whitespace.
pub open spec fn trim_start(s: Seq<char>) -> Seq<char>
    decreases s.len(),
{
    if s.len() > 0 && is_ws(s[0]) {
        trim_start(s.drop_first())
    } else {
        s
    }
}

/// `s` without its trailing whitespace.
pub open spec fn trim_end(s: Seq<char>) -> Seq<char>
    decreases s.len(),
{
    if s.len() > 0 && is_ws(s.last()) {
        trim_end(s.drop_last())
    } else {
        s
    }
}

/// `s` without leading and trailing whitespace, as `str::trim` gives it.
pub open spec fn trim(s: Seq<char>) -> Seq<char> {
    trim_end(trim_start(s))
}

/// The state of a left-to-right whitespace tokeniser: the finished tokens and
/// the token being read.
pub open spec fn ws_step(st: (Seq<Seq<char>>, Seq<char>), c: char) -> (Seq<Seq<char>>, Seq<char>) {
    if is_ws(c) {
        if st.1.len() > 0 {
            (st.0.push(st.1), Seq::empty())
        } else {
            st
        }
    } else {
        (st.0, st.1.push(c))
    }
}

/// The tokeniser state after reading all of `s`.
pub open spec fn ws_scan(s: Seq<char>) -> (Seq<Seq<char>>, Seq<char>)
    decreases s.len(),
{
    if s.len() == 0 {
        (Seq::empty(), Seq::empty())
    } else {
        ws_step(ws_scan(s.drop_last()), s.last())
    }
}

/// The maximal runs of non-whitespace characters of `s`, in order, as
/// `str::split_whitespace` yields them.
pub open spec fn ws_tokens(s: Seq<char>) -> Seq<Seq<char>> {
    let st = ws_scan(s);
    if st.1.len() > 0 {
        st.0.push(st.1)
    } else {
        st.0
    }
}

/// Number of bytes of the UTF-8 encoding of `c`.
pub open spec fn utf8_width(c: char) -> nat {
    if (c as u32) < 0x80 {
        1
    } else if (c as u32) < 0x800 {
        2
    } else if (c as u32) < 0x10000 {
        3
    } else {
        4
    }
}

/// Number of bytes of the UTF-8 encoding of `s` (what `str::len` returns).
pub open spec fn byte_len(s: Seq<char>) -> nat
    decreases s.len(),
{
    if s.len() == 0 {
        0
    } else {
        byte_len(s.drop_last()) + utf8_width(s.last())
    }
}

/// Byte offset `b` of `s` falls on a character boundary: it is the byte length
/// of some prefix of `s`.
pub open spec fn is_boundary(s: Seq<char>, b: int) -> bool {
    exists|i: int| 0 <= i <= s.len() && byte_len(#[trigger] s.take(i)) == b
}

/// The number of characters before byte offset `b`, where `b` is a boundary.
pub open spec fn char_index_of_byte(s: Seq<char>, b: int) -> int {
    choose|i: int| 0 <= i <= s.len() && byte_len(#[trigger] s.take(i)) == b
}

/// The first character of `s` is `c`.
pub open spec fn starts_with_char(s: Seq<char>, c: char) -> bool {
    s.len() > 0 && s[0] == c
}

/// The number of characters of `s` before the first occurrence of `c` (the
/// length of `s` when `c` does not occur).
pub open spec fn first_index_of(s: Seq<char>, c: char) -> int
    decreases s.len(),
{
    if s.len() == 0 {
        0
    } else if s[0] == c {
        0
    } else {
        1 + first_index_of(s.drop_first(), c)
    }
}

pub proof fn lemma_first_index_of(s: Seq<char>, c: char)
    ensures
        0 <= first_index_of(s, c) <= s.len(),
        first_index_of(s, c) < s.len() ==> s[first_index_of(s, c)] == c,
        forall|j: int| 0 <= j < first_index_of(s, c) ==> s[j] != c,
        s.contains(c) <==> first_index_of(s, c) < s.len(),
    decreases s.len(),
{
    if s.len() > 0 && s[0] != c {
        lemma_first_index_of(s.drop_first(), c);
        assert forall|j: int| 0 <= j < first_index_of(s, c) implies s[j] != c by {
            if j > 0 {
                assert(s[j] == s.drop_first()[j - 1]);
            }
        }
        if s.contains(c) {
            let k = choose|k: int| 0 <= k < s.len() && s[k] == c;
            assert(s.drop_first()[k - 1] == c);
        }
        if first_index_of(s, c) < s.len() {
            assert(s.drop_first().contains(c));
        }
    }
}

pub proof fn lemma_byte_len_take_step(s: Seq<char>, i: int)
    requires
        0 <= i < s.len(),
    ensures
        byte_len(s.take(i + 1)) == byte_len(s.take(i)) + utf8_width(s[i]),
{
    assert(s.take(i + 1).drop_last() =~= s.take(i));
}

/// Byte lengths of prefixes grow strictly with the prefix.
pub proof fn lemma_byte_len_take_strict(s: Seq<char>, i: int, j: int)
    requires
        0 <= i < j <= s.len(),
    ensures
        byte_len(s.take(i)) < byte_len(s.take(j)),
    decreases j - i,
{
    lemma_byte_len_take_step(s, j - 1);
    if i < j - 1 {
        lemma_byte_len_take_strict(s, i, j - 1);
    }
}

pub proof fn lemma_byte_len_bound(s: Seq<char>)
    ensures
        byte_len(s) <= 4 * s.len(),
        s.len() <= byte_len(s),
    decreases s.len(),
{
    if s.len() > 0 {
        lemma_byte_len_bound(s.drop_last());
    }
}

pub proof fn lemma_trim_blank(s: Seq<char>)
    ensures
        (trim(s).len() == 0) <==> is_blank(s),
        trim_start(s).len() == 0 <==> is_blank(s),
    decreases s.len(),
{
    if s.len() > 0 {
        if is_ws(s[0]) {
            lemma_trim_blank(s.drop_first());
            if is_blank(s.drop_first()) {
                assert forall|i: int| 0 <= i < s.len() implies is_ws(#[trigger] s[i]) by {
                    if i > 0 {
                        assert(s[i] == s.drop_first()[i - 1]);
                    }
                }
            }
            if is_blank(s) {
                assert forall|i: int| 0 <= i < s.drop_first().len() implies is_ws(
                    #[trigger] s.drop_first()[i],
                ) by {
                    assert(s.drop_first()[i] == s[i + 1]);
                }
            }
        } else {
            lemma_trim_end_keeps_first(s);
            assert(!is_ws(s[0]));
        }
    }
}

/// Trimming the end of a sequence that starts with a non-whitespace character
/// keeps that character.
pub proof fn lemma_trim_end_keeps_first(s: Seq<char>)
    requires
        s.len() > 0,
        !is_ws(s[0]),
    ensures
        trim_end(s).len() > 0,
        trim_end(s)[0] == s[0],
    decreases s.len(),
{
    if is_ws(s.last()) {
        assert(s.drop_last()[0] == s[0]);
        lemma_trim_end_keeps_first(s.drop_last());
    }
}

/// A non-empty sequence without whitespace is a single token.
pub proof fn lemma_ws_tokens_single(s: Seq<char>)
    requires
        s.len() > 0,
        forall|i: int| 0 <= i < s.len() ==> !is_ws(#[trigger] s[i]),
    ensures
        ws_tokens(s) == seq![s],
{
    lemma_ws_scan_word(s);
    assert(seq![s] =~= Seq::<Seq<char>>::empty().push(s));
}

proof fn lemma_ws_scan_word(s: Seq<char>)
    requires
        forall|i: int| 0 <= i < s.len() ==> !is_ws(#[trigger] s[i]),
    ensures
        ws_scan(s) == (Seq::<Seq<char>>::empty(), s),
    decreases s.len(),
{
    if s.len() > 0 {
        assert forall|i: int| 0 <= i < s.drop_last().len() implies !is_ws(
            #[trigger] s.drop_last()[i],
        ) by {
            assert(s.drop_last()[i] == s[i]);
        }
        lemma_ws_scan_word(s.drop_last());
        assert(!is_ws(s.last()));
        assert(s.drop_last().push(s.last()) =~= s);
    } else {
        assert(s =~= Seq::<char>::empty());
    }
}

/// The whitespace tokeniser state after reading `s` from state `st`.
pub open spec fn ws_run(st: (Seq<Seq<char>>, Seq<char>), s: Seq<char>) -> (
    Seq<Seq<char>>,
    Seq<char>,
)
    decreases s.len(),
{
    if s.len() == 0 {
        st
    } else {
        ws_step(ws_run(st, s.drop_last()), s.last())
    }
}

/// The tokens of a tokeniser state: the finished ones and a last non-empty
/// one.
pub open spec fn ws_finish(st: (Seq<Seq<char>>, Seq<char>)) -> Seq<Seq<char>> {
    if st.1.len() > 0 {
        st.0.push(st.1)
    } else {
        st.0
    }
}

pub proof fn lemma_ws_scan_run(s: Seq<char>)
    ensures
        ws_scan(s) == ws_run((Seq::empty(), Seq::empty()), s),
    decreases s.len(),
{
    if s.len() > 0 {
        lemma_ws_scan_run(s.drop_last());
    }
}

pub proof fn lemma_ws_run_concat(st: (Seq<Seq<char>>, Seq<char>), a: Seq<char>, b: Seq<char>)
    ensures
        ws_run(st, a + b) == ws_run(ws_run(st, a), b),
    decreases b.len(),
{
    if b.len() == 0 {
        assert(a + b =~= a);
    } else {
        assert((a + b).drop_last() =~= a + b.drop_last());
        assert((a + b).last() == b.last());
        lemma_ws_run_concat(st, a, b.drop_last());
    }
}

/// Reading whitespace changes no tokens, and changes nothing at all when no
/// token is being read.
pub proof fn lemma_ws_run_blank(st: (Seq<Seq<char>>, Seq<char>), b: Seq<char>)
    requires
        is_blank(b),
    ensures
        ws_finish(ws_run(st, b)) == ws_finish(st),
        st.1.len() == 0 ==> ws_run(st, b) == st,
        ws_run(st, b).1.len() == 0 || ws_run(st, b) == st,
    decreases b.len(),
{
    if b.len() > 0 {
        assert(is_blank(b.drop_last())) by {
            assert forall|i: int| 0 <= i < b.drop_last().len() implies is_ws(
                #[trigger] b.drop_last()[i],
            ) by {
                assert(b.drop_last()[i] == b[i]);
            }
        }
        lemma_ws_run_blank(st, b.drop_last());
        assert(is_ws(b[b.len() - 1]));
    }
}

/// `s` is its leading whitespace followed by `trim_start(s)`.
pub proof fn lemma_trim_start_split(s: Seq<char>)
    ensures
        trim_start(s).len() <= s.len(),
        s == s.take(s.len() - trim_start(s).len()) + trim_start(s),
        is_blank(s.take(s.len() - trim_start(s).len())),
    decreases s.len(),
{
    if s.len() > 0 && is_ws(s[0]) {
        let r = s.drop_first();
        lemma_trim_start_split(r);
        let k = r.len() - trim_start(r).len();
        assert(s.take(k + 1) =~= seq![s[0]] + r.take(k));
        assert(trim_start(s) == trim_start(r));
        assert(s =~= seq![s[0]] + r);
        assert(seq![s[0]] + r =~= seq![s[0]] + (r.take(k) + trim_start(r)));
        assert(s =~= s.take(k + 1) + trim_start(s));
        assert forall|i: int| 0 <= i < s.take(k + 1).len() implies is_ws(
            #[trigger] s.take(k + 1)[i],
        ) by {
            if i > 0 {
                assert(s.take(k + 1)[i] == r.take(k)[i - 1]);
            }
        }
    } else {
        assert(s.take(0) =~= Seq::<char>::empty());
        assert(s =~= s.take(0) + s);
    }
}

/// `s` is `trim_end(s)` followed by its trailing whitespace.
pub proof fn lemma_trim_end_split(s: Seq<char>)
    ensures
        trim_end(s).len() <= s.len(),
        s == trim_end(s) + s.skip(trim_end(s).len() as int),
        is_blank(s.skip(trim_end(s).len() as int)),
    decreases s.len(),
{
    if s.len() > 0 && is_ws(s.last()) {
        let r = s.drop_last();
        lemma_trim_end_split(r);
        let k = trim_end(r).len() as int;
        assert(s.skip(k) =~= r.skip(k).push(s.last()));
        assert(trim_end(s) == trim_end(r));
        assert(s =~= r.push(s.last()));
        assert(r.push(s.last()) =~= (trim_end(r) + r.skip(k)).push(s.last()));
        assert(s =~= trim_end(s) + s.skip(k));
        assert forall|i: int| 0 <= i < s.skip(k).len() implies is_ws(#[trigger] s.skip(k)[i]) by {
            if i < r.skip(k).len() {
                assert(s.skip(k)[i] == r.skip(k)[i]);
            }
        }
    } else {
        assert(s.skip(s.len() as int) =~= Seq::<char>::empty());
        assert(s =~= s + s.skip(s.len() as int));
    }
}

/// Trimming does not change the whitespace tokens.
pub proof fn lemma_ws_tokens_trim(s: Seq<char>)
    ensures
        ws_tokens(trim(s)) == ws_tokens(s),
{
    let init = (Seq::<Seq<char>>::empty(), Seq::<char>::empty());
    lemma_trim_start_split(s);
    let m = trim_start(s);
    let lead = s.take(s.len() - m.len());
    lemma_trim_end_split(m);
    let t = trim_end(m);
    let tail = m.skip(t.len() as int);
    lemma_ws_scan_run(s);
    lemma_ws_scan_run(t);
    assert(s =~= lead + (t + tail));
    lemma_ws_run_concat(init, lead, t + tail);
    lemma_ws_run_blank(init, lead);
    lemma_ws_run_concat(init, t, tail);
    lemma_ws_run_blank(ws_run(init, t), tail);
    assert(ws_tokens(s) == ws_finish(ws_scan(s)));
    assert(ws_tokens(t) == ws_finish(ws_scan(t)));
}

/// The characters of a string slice, in order.
pub fn chars_of(s: &str) -> (v: Vec<char>)
    ensures
        v@ == s@,
{
    let mut v: Vec<char> = Vec::new();
    for c in it: s.chars()
        invariant
            v@ == it.seq().take(it.index() as int),
    {
        v.push(c);
    }
    v
}

/// Appends `c` to `s` with `String::push`.
///
/// Trusted: `String::push` appends the given character at the end of the
/// string; this is all the contract claims.
#[verifier::external_body]
pub(crate) fn push_char(s: &mut String, c: char)
    ensures
        final(s)@ == old(s)@.push(c),
{
    s.push(c);
}

/// Appends the characters of `t` to `s`.
pub fn push_chars(s: &mut String, t: &[char])
    ensures
        final(s)@ == old(s)@ + t@,
{
    let n = t.len();
    for k in 0..n
        invariant
            n == t@.len(),
            s@ == old(s)@ + t@.take(k as int),
    {
        push_char(s, t[k]);
        assert(t@.take(k + 1) =~= t@.take(k as int).push(t@[k as int]));
    }
    assert(t@.take(n as int) =~= t@);
}

/// The string made of the characters of `t`.
pub fn string_from(t: &[char]) -> (s: String)
    ensures
        s@ == t@,
{
    let mut s = String::new();
    push_chars(&mut s, t);
    s
}

/// What `char::is_alphanumeric` returns for `c` (the Unicode `Alphabetic`
/// or `Numeric` properties, whose tables the library does not restate).
pub uninterp spec fn char_is_alphanumeric(c: char) -> bool;

/// `c` is an ASCII letter or an ASCII digit.
pub open spec fn is_ascii_letter_or_digit(c: char) -> bool {
    ('a' <= c && c <= 'z') || ('A' <= c && c <= 'Z') || ('0' <= c && c <= '9')
}

/// Whether `char::is_alphanumeric` holds of `c`, read directly for ASCII
/// characters (the letters and digits) and through `char_is_alphanumeric`
/// for the others.
pub open spec fn alphanumeric(c: char) -> bool {
    if (c as u32) < 128 {
        is_ascii_letter_or_digit(c)
    } else {
        char_is_alphanumeric(c)
    }
}

/// Calls `char::is_alphanumeric`.
///
/// Trusted: the result is `char_is_alphanumeric(c)`, a name for the outcome
/// of the Unicode `Alphabetic`/`Numeric` lookup. Of ASCII characters it is
/// also claimed that exactly the letters and digits are alphanumeric (in
/// ASCII only `A`-`Z` and `a`-`z` are `Alphabetic` and only `0`-`9` are
/// numeric). Nothing is claimed of other characters.
#[verifier::external_body]
pub(crate) fn is_alphanumeric(c: char) -> (b: bool)
    ensures
        b == char_is_alphanumeric(c),
        (c as u32) < 128 ==> (b <==> is_ascii_letter_or_digit(c)),
{
    c.is_alphanumeric()
}

/// A copy of `s[i..j]`.
pub fn copy_range(s: &[char], i: usize, j: usize) -> (t: Vec<char>)
    requires
        i <= j <= s@.len(),
    ensures
        t@ == s@.subrange(i as int, j as int),
{
    let mut t: Vec<char> = Vec::new();
    for k in i..j
        invariant
            j <= s@.len(),
            t@ == s@.subrange(i as int, k as int),
    {
        t.push(s[k]);
        assert(s@.subrange(i as int, k + 1) =~= s@.subrange(i as int, k as int).push(s@[k as int]));
    }
    t
}

/// Whether the two character sequences are equal.
pub fn chars_eq(a: &[char], b: &[char]) -> (r: bool)
    ensures
        r == (a@ == b@),
{
    if a.len() != b.len() {
        return false;
    }
    let n = a.len();
    for k in 0..n
        invariant
            n == a@.len(),
            n == b@.len(),
            forall|j: int| 0 <= j < k ==> a@[j] == b@[j],
    {
        if a[k] != b[k] {
            return false;
        }
    }
    assert(a@ =~= b@);
    true
}

/// Whether `c` occurs in `s`.
pub fn contains_char(s: &[char], c: char) -> (r: bool)
    ensures
        r == s@.contains(c),
{
    let n = s.len();
    for k in 0..n
        invariant
            n == s@.len(),
            forall|j: int| 0 <= j < k ==> s@[j] != c,
    {
        if s[k] == c {
            assert(s@[k as int] == c);
            return true;
        }
    }
    false
}

/// The index of the first `c` in `s`, or the length of `s`.
pub fn find_char(s: &[char], c: char) -> (r: usize)
    ensures
        r == first_index_of(s@, c),
{
    proof {
        lemma_first_index_of(s@, c);
    }
    let n = s.len();
    let mut k: usize = 0;
    while k < n && s[k] != c
        invariant
            k <= n,
            n == s@.len(),
            forall|j: int| 0 <= j < k ==> s@[j] != c,
        decreases n - k,
    {
        k += 1;
    }
    proof {
        let f = first_index_of(s@, c);
        if f < k {
            assert(s@[f] == c);
        }
        if k < f {
            assert(s@[k as int] == c);
        }
    }
    k
}

/// `s` without leading and trailing whitespace.
pub fn trim_chars(s: &[char]) -> (t: Vec<char>)
    ensures
        t@ == trim(s@),
{
    let n = s.len();
    let mut i: usize = 0;
    assert(s@.skip(0) =~= s@);
    while i < n && is_whitespace(s[i])
        invariant
            i <= n,
            n == s@.len(),
            trim_start(s@) == trim_start(s@.skip(i as int)),
        decreases n - i,
    {
        assert(s@.skip(i as int).drop_first() =~= s@.skip(i + 1));
        i += 1;
    }
    assert(trim_start(s@) == s@.skip(i as int));
    assert(s@.skip(i as int) =~= s@.subrange(i as int, n as int));
    let mut j: usize = n;
    while j > i && is_whitespace(s[j - 1])
        invariant
            i <= j <= n,
            n == s@.len(),
            trim(s@) == trim_end(s@.subrange(i as int, j as int)),
        decreases j,
    {
        assert(s@.subrange(i as int, j as int).drop_last() =~= s@.subrange(i as int, j - 1));
        j -= 1;
    }
    copy_range(s, i, j)
}

/// `s` without leading whitespace.
pub fn trim_start_chars(s: &[char]) -> (t: Vec<char>)
    ensures
        t@ == trim_start(s@),
{
    let n = s.len();
    let mut i: usize = 0;
    assert(s@.skip(0) =~= s@);
    while i < n && is_whitespace(s[i])
        invariant
            i <= n,
            n == s@.len(),
            trim_start(s@) == trim_start(s@.skip(i as int)),
        decreases n - i,
    {
        assert(s@.skip(i as int).drop_first() =~= s@.skip(i + 1));
        i += 1;
    }
    assert(s@.skip(i as int) =~= s@.subrange(i as int, n as int));
    copy_range(s, i, n)
}

/// The whitespace-separated tokens of `s`, as `str::split_whitespace` yields
/// them.
pub fn split_whitespace(s: &[char]) -> (toks: Vec<Vec<char>>)
    ensures
        toks.deep_view() == ws_tokens(s@),
{
    let n = s.len();
    let mut toks: Vec<Vec<char>> = Vec::new();
    let mut cur: Vec<char> = Vec::new();
    for k in 0..n
        invariant
            n == s@.len(),
            (toks.deep_view(), cur@) == ws_scan(s@.take(k as int)),
    {
        let c = s[k];
        assert(s@.take(k + 1).drop_last() =~= s@.take(k as int));
        if is_whitespace(c) {
            if cur.len() > 0 {
                let ghost before = toks.deep_view();
                assert(cur.deep_view() =~= cur@);
                toks.push(cur);
                assert(toks.deep_view() =~= before.push(cur@));
                cur = Vec::new();
            }
        } else {
            cur.push(c);
        }
    }
    assert(s@.take(n as int) =~= s@);
    if cur.len() > 0 {
        let ghost before = toks.deep_view();
        assert(cur.deep_view() =~= cur@);
        toks.push(cur);
        assert(toks.deep_view() =~= before.push(cur@));
    }
    toks
}

/// Number of bytes of the UTF-8 encoding of `c`.
pub fn char_width(c: char) -> (w: usize)
    ensures
        w == utf8_width(c),
{
    let u = c as u32;
    if u < 0x80 {
        1
    } else if u < 0x800 {
        2
    } else if u < 0x10000 {
        3
    } else {
        4
    }
}

/// Number of bytes of the UTF-8 encoding of `s`.
pub fn byte_length(s: &[char]) -> (l: u128)
    ensures
        l == byte_len(s@),
{
    let n = s.len();
    let mut acc: u128 = 0;
    for k in 0..n
        invariant
            n == s@.len(),
            acc == byte_len(s@.take(k as int)),
            acc <= 4 * k,
    {
        proof {
            lemma_byte_len_take_step(s@, k as int);
        }
        acc = acc + char_width(s[k]) as u128;
    }
    assert(s@.take(n as int) =~= s@);
    acc
}

/// The number of characters before byte offset `b` of `s`, when `b` falls on
/// a character boundary.
pub fn char_index_at_byte(s: &[char], b: u128) -> (r: Option<usize>)
    ensures
        r is Some <==> is_boundary(s@, b as int),
        r matches Some(i) ==> i <= s@.len() && byte_len(s@.take(i as int)) == b && i
            == char_index_of_byte(s@, b as int),
{
    let n = s.len();
    let mut acc: u128 = 0;
    let mut k: usize = 0;
    assert(s@.take(0) =~= Seq::<char>::empty());
    while k < n && acc < b
        invariant
            k <= n,
            n == s@.len(),
            acc == byte_len(s@.take(k as int)),
            acc <= 4 * k,
            forall|j: int| 0 <= j < k ==> byte_len(#[trigger] s@.take(j)) < b,
        decreases n - k,
    {
        proof {
            lemma_byte_len_take_step(s@, k as int);
        }
        acc = acc + char_width(s[k]) as u128;
        k += 1;
    }
    if acc == b {
        proof {
            let c = char_index_of_byte(s@, b as int);
            assert(is_boundary(s@, b as int));
            if c < k {
                lemma_byte_len_take_strict(s@, c, k as int);
            } else if c > k {
                lemma_byte_len_take_strict(s@, k as int, c);
            }
        }
        Some(k)
    } else {
        proof {
            assert forall|i: int| 0 <= i <= s@.len() implies byte_len(#[trigger] s@.take(i))
                != b by {
                if i > k {
                    lemma_byte_len_take_strict(s@, k as int, i);
                }
            }
        }
        None
    }
}

proof fn lemma_ws_run_keeps_tokens(st: (Seq<Seq<char>>, Seq<char>), s: Seq<char>)
    ensures
        ws_run(st, s).0.len() >= st.0.len(),
        forall|j: int| 0 <= j < st.0.len() ==> #[trigger] ws_run(st, s).0[j] == st.0[j],
    decreases s.len(),
{
    if s.len() > 0 {
        lemma_ws_run_keeps_tokens(st, s.drop_last());
        let p = ws_run(st, s.drop_last());
        assert forall|j: int| 0 <= j < st.0.len() implies #[trigger] ws_run(st, s).0[j]
            == st.0[j] by {
            assert(p.0[j] == st.0[j]);
            if is_ws(s.last()) && p.1.len() > 0 {
                assert(p.0.push(p.1)[j] == p.0[j]);
            }
        }
    }
}

/// The first whitespace token of a word followed by a space and more text
/// is that word.
pub proof fn lemma_ws_tokens_first_word(w: Seq<char>, rest: Seq<char>)
    requires
        w.len() > 0,
        forall|i: int| 0 <= i < w.len() ==> !is_ws(#[trigger] w[i]),
    ensures
        ws_tokens(w + seq![' '] + rest).len() > 0,
        ws_tokens(w + seq![' '] + rest)[0] == w,
{
    let s = w + seq![' '] + rest;
    let e = (Seq::<Seq<char>>::empty(), Seq::<char>::empty());
    lemma_ws_scan_run(s);
    lemma_ws_scan_run(w);
    lemma_ws_scan_word(w);
    lemma_ws_run_concat(e, w + seq![' '], rest);
    lemma_ws_run_concat(e, w, seq![' ']);
    let sp = seq![' '];
    assert(sp.drop_last() =~= Seq::<char>::empty());
    assert(sp.len() == 1 && sp.last() == ' ');
    assert(ws_run(ws_run(e, w), Seq::<char>::empty()) == ws_run(e, w));
    assert(ws_run(ws_run(e, w), sp) == ws_step(ws_run(ws_run(e, w), sp.drop_last()), sp.last()));
    assert(ws_run(ws_run(e, w), sp) == ws_step(ws_run(e, w), ' '));
    let mid = (seq![w], Seq::<char>::empty());
    assert(ws_run(e, w + seq![' ']) == mid) by {
        assert(Seq::<Seq<char>>::empty().push(w) =~= seq![w]);
    }
    lemma_ws_run_keeps_tokens(mid, rest);
    let fin = ws_run(mid, rest);
    assert(fin.0[0] == w);
    if fin.1.len() > 0 {
        assert(fin.0.push(fin.1)[0] == fin.0[0]);
    }
}

} // verus!
