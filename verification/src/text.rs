//! Character-level helpers over `Seq<char>`: whitespace, trimming, tokens,
//! prefixes and searches, with executable counterparts.

use vstd::prelude::*;

verus! {

/// The Unicode `White_Space` property, as `char::is_whitespace` tests it.
pub open spec fn is_ws(c: char) -> bool {
    ||| c == '\t'
    ||| c == '\n'
    ||| c == '\u{0B}'
    ||| c == '\u{0C}'
    ||| c == '\r'
    ||| c == ' '
    ||| c == '\u{85}'
    ||| c == '\u{A0}'
    ||| c == '\u{1680}'
    ||| ('\u{2000}' <= c && c <= '\u{200A}')
    ||| c == '\u{2028}'
    ||| c == '\u{2029}'
    ||| c == '\u{202F}'
    ||| c == '\u{205F}'
    ||| c == '\u{3000}'
}

/// Whether `c` is one of `'0'..='9'`.
pub open spec fn is_digit(c: char) -> bool {
    '0' <= c && c <= '9'
}

pub fn is_whitespace(c: char) -> (b: bool)
    ensures
        b == is_ws(c),
{
    c == '\t' || c == '\n' || c == '\u{0B}' || c == '\u{0C}' || c == '\r' || c == ' '
        || c == '\u{85}' || c == '\u{A0}' || c == '\u{1680}' || ('\u{2000}' <= c && c
        <= '\u{200A}') || c == '\u{2028}' || c == '\u{2029}' || c == '\u{202F}' || c
        == '\u{205F}' || c == '\u{3000}'
}

pub fn is_ascii_digit(c: char) -> (b: bool)
    ensures
        b == is_digit(c),
{
    '0' <= c && c <= '9'
}

/// Appends one character to a string (`String::push`).
#[verifier::external_body]
pub(crate) fn push_char(s: &mut String, c: char)
    ensures
        final(s)@ == old(s)@.push(c),
{
    s.push(c);
}

/// The characters of `s`, in order.
pub fn chars_of(s: &str) -> (v: Vec<char>)
    ensures
        v@ == s@,
{
    let mut v: Vec<char> = Vec::new();
    for c in it: s.chars()
        invariant
            v@ == it.seq().take(it.index() as int),
            it.seq() == s@,
    {
        v.push(c);
    }
    v
}


/// The string made of `cs[from..to]`.
pub fn string_of(cs: &Vec<char>, from: usize, to: usize) -> (s: String)
    requires
        from <= to <= cs@.len(),
    ensures
        s@ == cs@.subrange(from as int, to as int),
{
    let mut s = String::new();
    let mut i = from;
    while i < to
        invariant
            from <= i <= to <= cs@.len(),
            s@ == cs@.subrange(from as int, i as int),
        decreases to - i,
    {
        push_char(&mut s, cs[i]);
        i = i + 1;
        assert(s@ =~= cs@.subrange(from as int, i as int));
    }
    s
}

/// The views of a sequence of strings.
pub open spec fn views(v: Seq<String>) -> Seq<Seq<char>> {
    v.map_values(|s: String| s@)
}

pub proof fn lemma_views_push(v: Seq<String>, s: String)
    ensures
        views(v.push(s)) == views(v).push(s@),
{
    assert(views(v.push(s)) =~= views(v).push(s@));
}

/// The index of the first character at or after `i` that is not whitespace
/// (`s.len()` if there is none).
pub open spec fn skip_ws(s: Seq<char>, i: int) -> int
    decreases s.len() - i,
{
    if i < 0 || i >= s.len() {
        s.len() as int
    } else if is_ws(s[i]) {
        skip_ws(s, i + 1)
    } else {
        i
    }
}

/// One past the index of the last character before `j` that is not whitespace
/// (`0` if there is none).
pub open spec fn back_ws(s: Seq<char>, j: int) -> int
    decreases j,
{
    if j <= 0 || j > s.len() {
        0
    } else if is_ws(s[j - 1]) {
        back_ws(s, j - 1)
    } else {
        j
    }
}

/// `s` without leading and trailing whitespace (`str::trim`).
pub open spec fn trim(s: Seq<char>) -> Seq<char> {
    let a = skip_ws(s, 0);
    let b = back_ws(s, s.len() as int);
    if a < b {
        s.subrange(a, b)
    } else {
        Seq::empty()
    }
}

pub proof fn lemma_skip_ws_bounds(s: Seq<char>, i: int)
    requires
        0 <= i <= s.len(),
    ensures
        i <= skip_ws(s, i) <= s.len(),
        skip_ws(s, i) < s.len() ==> !is_ws(s[skip_ws(s, i)]),
        forall|k: int| i <= k < skip_ws(s, i) ==> is_ws(#[trigger] s[k]),
    decreases s.len() - i,
{
    if i < s.len() && is_ws(s[i]) {
        lemma_skip_ws_bounds(s, i + 1);
    }
}

pub proof fn lemma_back_ws_bounds(s: Seq<char>, j: int)
    requires
        0 <= j <= s.len(),
    ensures
        0 <= back_ws(s, j) <= j,
        back_ws(s, j) > 0 ==> !is_ws(s[back_ws(s, j) - 1]),
        forall|k: int| back_ws(s, j) <= k < j ==> is_ws(#[trigger] s[k]),
    decreases j,
{
    if j > 0 && is_ws(s[j - 1]) {
        lemma_back_ws_bounds(s, j - 1);
    }
}

/// A line whose first and last characters are not whitespace is its own trim.
pub proof fn lemma_trim_id(s: Seq<char>)
    requires
        s.len() > 0,
        !is_ws(s[0]),
        !is_ws(s[s.len() - 1]),
    ensures
        trim(s) == s,
{
    assert(s.subrange(0, s.len() as int) =~= s);
}

/// `cs` without leading and trailing whitespace.
pub fn trimmed(cs: &Vec<char>) -> (s: String)
    ensures
        s@ == trim(cs@),
{
    let n = cs.len();
    let mut a: usize = 0;
    while a < n && is_whitespace(cs[a])
        invariant
            0 <= a <= n == cs@.len(),
            skip_ws(cs@, a as int) == skip_ws(cs@, 0),
        decreases n - a,
    {
        a = a + 1;
    }
    let mut b: usize = n;
    while b > 0 && is_whitespace(cs[b - 1])
        invariant
            0 <= b <= n == cs@.len(),
            back_ws(cs@, b as int) == back_ws(cs@, n as int),
        decreases b,
    {
        b = b - 1;
    }
    if a < b {
        string_of(cs, a, b)
    } else {
        String::new()
    }
}

/// The maximal runs of non-whitespace characters of `s` (`str::split_whitespace`).
pub open spec fn tokens(s: Seq<char>) -> Seq<Seq<char>>
    decreases s.len(),
{
    if s.len() == 0 {
        Seq::empty()
    } else {
        let p = tokens(s.drop_last());
        let c = s.last();
        if is_ws(c) {
            p
        } else if s.len() >= 2 && !is_ws(s[s.len() - 2]) {
            p.drop_last().push(p.last().push(c))
        } else {
            p.push(seq![c])
        }
    }
}

/// The whitespace-separated tokens of `cs`.
pub fn tokens_of(cs: &Vec<char>) -> (toks: Vec<String>)
    ensures
        views(toks@) == tokens(cs@),
{
    let n = cs.len();
    let mut toks: Vec<String> = Vec::new();
    let mut cur = String::new();
    let mut in_tok = false;
    let mut i: usize = 0;
    while i < n
        invariant
            0 <= i <= n == cs@.len(),
            in_tok ==> tokens(cs@.take(i as int)) == views(toks@).push(cur@),
            in_tok ==> i > 0 && !is_ws(cs@[i - 1]),
            !in_tok ==> tokens(cs@.take(i as int)) == views(toks@),
            !in_tok ==> (i == 0 || is_ws(cs@[i - 1])),
        decreases n - i,
    {
        let c = cs[i];
        let ghost pre = cs@.take(i as int);
        assert(cs@.take(i + 1).drop_last() =~= pre);
        assert(cs@.take(i + 1).last() == c);
        if is_whitespace(c) {
            if in_tok {
                proof {
                    lemma_views_push(toks@, cur);
                }
                toks.push(cur);
                cur = String::new();
                in_tok = false;
            }
        } else {
            if in_tok {
                push_char(&mut cur, c);
                assert(views(toks@).push(cur@) =~= tokens(pre).drop_last().push(
                    tokens(pre).last().push(c),
                ));
            } else {
                cur = String::new();
                push_char(&mut cur, c);
                assert(cur@ =~= seq![c]);
                in_tok = true;
            }
        }
        i = i + 1;
    }
    assert(cs@.take(n as int) =~= cs@);
    if in_tok {
        proof {
            lemma_views_push(toks@, cur);
        }
        toks.push(cur);
    }
    toks
}

/// A non-empty text without whitespace.
pub open spec fn is_word(w: Seq<char>) -> bool {
    w.len() > 0 && forall|i: int| 0 <= i < w.len() ==> !is_ws(#[trigger] w[i])
}

/// A text that ends in non-whitespace has a token.
pub proof fn lemma_tokens_nonempty(s: Seq<char>)
    requires
        s.len() > 0,
        !is_ws(s.last()),
    ensures
        tokens(s).len() > 0,
{
}

/// A word is its only token.
pub proof fn lemma_tokens_word(w: Seq<char>)
    requires
        is_word(w),
    ensures
        tokens(w) == seq![w],
    decreases w.len(),
{
    let p = w.drop_last();
    if p.len() == 0 {
        assert(tokens(p) =~= Seq::<Seq<char>>::empty());
        assert(seq![w.last()] =~= w);
        assert(tokens(w) =~= seq![w]);
    } else {
        assert(is_word(p)) by {
            assert forall|i: int| 0 <= i < p.len() implies !is_ws(#[trigger] p[i]) by {
                assert(p[i] == w[i]);
            }
        }
        lemma_tokens_word(p);
        assert(!is_ws(w[w.len() - 2]));
        assert(p.push(w.last()) =~= w);
        assert(tokens(w) =~= seq![w]);
    }
}

/// A space separates the tokens on either side of it.
pub proof fn lemma_tokens_space(x: Seq<char>, y: Seq<char>)
    ensures
        tokens(x + seq![' '] + y) == tokens(x) + tokens(y),
    decreases y.len(),
{
    let xs = x + seq![' '];
    if y.len() == 0 {
        assert(xs + y =~= xs);
        assert(xs.drop_last() =~= x);
        assert(tokens(x) + tokens(y) =~= tokens(x));
    } else {
        let y0 = y.drop_last();
        let c = y.last();
        lemma_tokens_space(x, y0);
        let s = xs + y;
        assert(s.drop_last() =~= xs + y0);
        assert(s.last() == c);
        if is_ws(c) {
        } else if y0.len() == 0 {
            assert(s[s.len() - 2] == ' ');
            assert(xs + y0 =~= xs);
            assert(xs.drop_last() =~= x);
            assert(tokens(y) =~= seq![seq![c]]);
            assert(tokens(s) =~= tokens(x) + tokens(y));
        } else {
            assert(s[s.len() - 2] == y0.last());
            assert(y.drop_last() =~= y0);
            if !is_ws(y0.last()) {
                lemma_tokens_nonempty(y0);
                assert(tokens(s) =~= tokens(x) + tokens(y));
            } else {
                assert(tokens(s) =~= tokens(x) + tokens(y));
            }
        }
    }
}

/// Whether `s` begins with `p`.
pub open spec fn has_prefix(s: Seq<char>, p: Seq<char>) -> bool {
    p.len() <= s.len() && s.subrange(0, p.len() as int) == p
}

/// Whether the characters `cs` begin with the string `p`.
pub fn starts_with(cs: &Vec<char>, p: &str) -> (b: bool)
    ensures
        b == has_prefix(cs@, p@),
{
    let pc = chars_of(p);
    if pc.len() > cs.len() {
        return false;
    }
    let mut i: usize = 0;
    while i < pc.len()
        invariant
            0 <= i <= pc@.len() <= cs@.len(),
            pc@ == p@,
            forall|k: int| 0 <= k < i ==> cs@[k] == pc@[k],
        decreases pc@.len() - i,
    {
        if cs[i] != pc[i] {
            assert(cs@.subrange(0, pc@.len() as int)[i as int] != p@[i as int]);
            return false;
        }
        i = i + 1;
    }
    assert(cs@.subrange(0, pc@.len() as int) =~= p@);
    true
}

/// Whether two strings hold the same characters.
pub fn same_text(a: &str, b: &str) -> (r: bool)
    ensures
        r == (a@ == b@),
{
    let ac = chars_of(a);
    let bc = chars_of(b);
    if ac.len() != bc.len() {
        return false;
    }
    let mut i: usize = 0;
    while i < ac.len()
        invariant
            0 <= i <= ac@.len() == bc@.len(),
            ac@ == a@,
            bc@ == b@,
            forall|k: int| 0 <= k < i ==> ac@[k] == bc@[k],
        decreases ac@.len() - i,
    {
        if ac[i] != bc[i] {
            return false;
        }
        i = i + 1;
    }
    assert(ac@ =~= bc@);
    true
}

/// Whether the string `s` holds the character `c`.
pub fn str_contains(s: &str, c: char) -> (b: bool)
    ensures
        b == s@.contains(c),
{
    let cs = chars_of(s);
    let mut i: usize = 0;
    while i < cs.len()
        invariant
            0 <= i <= cs@.len(),
            cs@ == s@,
            forall|k: int| 0 <= k < i ==> cs@[k] != c,
        decreases cs@.len() - i,
    {
        if cs[i] == c {
            return true;
        }
        i = i + 1;
    }
    false
}

/// The index of the first `c` in `s` at or after `i`.
pub open spec fn find_from(s: Seq<char>, c: char, i: int) -> Option<int>
    decreases s.len() - i,
{
    if i < 0 || i >= s.len() {
        None
    } else if s[i] == c {
        Some(i)
    } else {
        find_from(s, c, i + 1)
    }
}

/// The index of the last `c` in `s` before `j`.
pub open spec fn rfind_before(s: Seq<char>, c: char, j: int) -> Option<int>
    decreases j,
{
    if j <= 0 || j > s.len() {
        None
    } else if s[j - 1] == c {
        Some(j - 1)
    } else {
        rfind_before(s, c, j - 1)
    }
}

pub proof fn lemma_find_bounds(s: Seq<char>, c: char, i: int)
    requires
        0 <= i,
    ensures
        find_from(s, c, i) matches Some(k) ==> i <= k < s.len() && s[k] == c,
    decreases s.len() - i,
{
    if i < s.len() && s[i] != c {
        lemma_find_bounds(s, c, i + 1);
    }
}

pub proof fn lemma_rfind_bounds(s: Seq<char>, c: char, j: int)
    requires
        j <= s.len(),
    ensures
        rfind_before(s, c, j) matches Some(k) ==> 0 <= k < j && s[k] == c,
    decreases j,
{
    if j > 0 && s[j - 1] != c {
        lemma_rfind_bounds(s, c, j - 1);
    }
}

/// The index of the first `c` in `cs` (`str::find`).
pub fn find_char(cs: &Vec<char>, c: char) -> (r: Option<usize>)
    ensures
        match r {
            Some(k) => find_from(cs@, c, 0) == Some(k as int) && k < cs@.len(),
            None => find_from(cs@, c, 0) is None,
        },
{
    let mut i: usize = 0;
    while i < cs.len()
        invariant
            0 <= i <= cs@.len(),
            find_from(cs@, c, i as int) == find_from(cs@, c, 0),
        decreases cs@.len() - i,
    {
        if cs[i] == c {
            return Some(i);
        }
        i = i + 1;
    }
    None
}

/// The index of the last `c` in `cs` (`str::rfind`).
pub fn rfind_char(cs: &Vec<char>, c: char) -> (r: Option<usize>)
    ensures
        match r {
            Some(k) => rfind_before(cs@, c, cs@.len() as int) == Some(k as int) && k < cs@.len(),
            None => rfind_before(cs@, c, cs@.len() as int) is None,
        },
{
    let mut j: usize = cs.len();
    while j > 0
        invariant
            0 <= j <= cs@.len(),
            rfind_before(cs@, c, j as int) == rfind_before(cs@, c, cs@.len() as int),
        decreases j,
    {
        if cs[j - 1] == c {
            return Some(j - 1);
        }
        j = j - 1;
    }
    None
}

} // verus!
