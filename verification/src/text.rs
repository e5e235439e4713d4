//! Character and string primitives shared by the search, indexing and rendering code.
use vstd::prelude::*;

verus! {

/// The characters Unicode marks `White_Space`, which is what `char::is_whitespace` tests.
pub open spec fn is_ws(c: char) -> bool {
    ||| c == '\t' || c == '\n' || c == '\u{0B}' || c == '\u{0C}' || c == '\r' || c == ' '
    ||| c == '\u{85}' || c == '\u{A0}' || c == '\u{1680}'
    ||| ('\u{2000}' <= c && c <= '\u{200A}')
    ||| c == '\u{2028}' || c == '\u{2029}' || c == '\u{202F}' || c == '\u{205F}' || c == '\u{3000}'
}

/// Whether `c` is a Unicode white-space character.
pub fn is_whitespace(c: char) -> (r: bool)
    ensures
        r == is_ws(c),
{
    c == '\t' || c == '\n' || c == '\u{0B}' || c == '\u{0C}' || c == '\r' || c == ' '
        || c == '\u{85}' || c == '\u{A0}' || c == '\u{1680}'
        || ('\u{2000}' <= c && c <= '\u{200A}')
        || c == '\u{2028}' || c == '\u{2029}' || c == '\u{202F}' || c == '\u{205F}'
        || c == '\u{3000}'
}

/// The characters of `s`, in order.
pub fn chars_of(s: &str) -> (v: Vec<char>)
    ensures
        v@ == s@,
{
    let mut v: Vec<char> = Vec::new();
    for c in it: s.chars()
        invariant
            v@ == it.seq().take(it.index() as int),
    {
        v.push(c);
    }
    assert(v@ =~= s@);
    v
}

} // verus!

verus! {

/// Appends one character to a string.
#[verifier::external_body]
pub fn push_char(s: &mut String, c: char)
    ensures
        final(s)@ == old(s)@.push(c),
{
    s.push(c);
}

/// The string whose characters are `v`.
pub fn string_of(v: &[char]) -> (s: String)
    ensures
        s@ == v@,
{
    let mut s = String::new();
    let mut i: usize = 0;
    while i < v.len()
        invariant
            i <= v@.len(),
            s@ == v@.take(i as int),
        decreases v@.len() - i,
    {
        push_char(&mut s, v[i]);
        i = i + 1;
        assert(s@ =~= v@.take(i as int));
    }
    assert(v@.take(v@.len() as int) =~= v@);
    s
}

/// Appends the characters of `v` to `s`.
pub fn push_chars(s: &mut String, v: &[char])
    ensures
        final(s)@ == old(s)@ + v@,
{
    let ghost start = s@;
    let mut i: usize = 0;
    while i < v.len()
        invariant
            i <= v@.len(),
            s@ == start + v@.take(i as int),
        decreases v@.len() - i,
    {
        push_char(s, v[i]);
        i = i + 1;
        assert(s@ =~= start + v@.take(i as int));
    }
    assert(v@.take(v@.len() as int) =~= v@);
}

/// Appends `t` to `s`.
pub fn push_str(s: &mut String, t: &str)
    ensures
        final(s)@ == old(s)@ + t@,
{
    let v = chars_of(t);
    push_chars(s, v.as_slice());
}

} // verus!

verus! {

/// The white-space separated words of `s`, scanned from position `i` with the word `cur`
/// in progress and the finished words `acc`.
pub open spec fn words_from(s: Seq<char>, i: int, cur: Seq<char>, acc: Seq<Seq<char>>) -> Seq<
    Seq<char>,
>
    decreases s.len() - i,
{
    if i >= s.len() {
        if cur.len() > 0 {
            acc.push(cur)
        } else {
            acc
        }
    } else if is_ws(s[i]) {
        words_from(s, i + 1, Seq::empty(), if cur.len() > 0 { acc.push(cur) } else { acc })
    } else {
        words_from(s, i + 1, cur.push(s[i]), acc)
    }
}

/// The maximal runs of non-white-space characters of `s`, in order (what `str::split_whitespace`
/// yields).
pub open spec fn words(s: Seq<char>) -> Seq<Seq<char>> {
    words_from(s, 0, Seq::empty(), Seq::empty())
}

/// The pieces of `s` between occurrences of `sep`, scanned from position `i` (what `str::split`
/// with a character yields).
pub open spec fn pieces_from(s: Seq<char>, sep: char, i: int, cur: Seq<char>, acc: Seq<Seq<char>>) -> Seq<
    Seq<char>,
>
    decreases s.len() - i,
{
    if i >= s.len() {
        acc.push(cur)
    } else if s[i] == sep {
        pieces_from(s, sep, i + 1, Seq::empty(), acc.push(cur))
    } else {
        pieces_from(s, sep, i + 1, cur.push(s[i]), acc)
    }
}

/// The pieces of `s` split at every `sep`; there is always one more piece than separators.
pub open spec fn pieces(s: Seq<char>, sep: char) -> Seq<Seq<char>> {
    pieces_from(s, sep, 0, Seq::empty(), Seq::empty())
}

/// `parts` joined with the separator sequence `sep` between consecutive parts.
pub open spec fn join(parts: Seq<Seq<char>>, sep: Seq<char>) -> Seq<char>
    decreases parts.len(),
{
    if parts.len() == 0 {
        Seq::empty()
    } else if parts.len() == 1 {
        parts[0]
    } else {
        join(parts.drop_last(), sep) + sep + parts.last()
    }
}

/// Whether `needle` occurs in `hay` as a contiguous run.
pub open spec fn occurs_at(hay: Seq<char>, needle: Seq<char>, i: int) -> bool {
    0 <= i && i + needle.len() <= hay.len() && hay.subrange(i, i + needle.len()) == needle
}

/// Whether `needle` occurs somewhere in `hay` (what `str::contains` tests).
pub open spec fn contains(hay: Seq<char>, needle: Seq<char>) -> bool {
    exists|i: int| occurs_at(hay, needle, i)
}

/// The character sequences held by a vector of character vectors.
pub open spec fn views(v: Seq<Vec<char>>) -> Seq<Seq<char>> {
    v.map_values(|w: Vec<char>| w@)
}

/// Splits `s` into its white-space separated words.
pub fn split_words(s: &[char]) -> (r: Vec<Vec<char>>)
    ensures
        views(r@) == words(s@),
{
    let mut acc: Vec<Vec<char>> = Vec::new();
    let mut cur: Vec<char> = Vec::new();
    let mut i: usize = 0;
    assert(views(acc@) =~= Seq::<Seq<char>>::empty());
    assert(cur@ =~= Seq::<char>::empty());
    while i < s.len()
        invariant
            i <= s@.len(),
            words(s@) == words_from(s@, i as int, cur@, views(acc@)),
        decreases s@.len() - i,
    {
        let c = s[i];
        let ghost old_acc = views(acc@);
        if is_whitespace(c) {
            if cur.len() > 0 {
                let w = cur;
                acc.push(w);
                assert(views(acc@) =~= old_acc.push(w@));
                cur = Vec::new();
            }
            assert(cur@ =~= Seq::<char>::empty());
        } else {
            cur.push(c);
        }
        i = i + 1;
    }
    if cur.len() > 0 {
        let ghost old_acc = views(acc@);
        let ghost w = cur@;
        acc.push(cur);
        assert(views(acc@) =~= old_acc.push(w));
    }
    acc
}

} // verus!

verus! {

/// Splits `s` at every occurrence of `sep`.
pub fn split_pieces(s: &[char], sep: char) -> (r: Vec<Vec<char>>)
    ensures
        views(r@) == pieces(s@, sep),
{
    let mut acc: Vec<Vec<char>> = Vec::new();
    let mut cur: Vec<char> = Vec::new();
    let mut i: usize = 0;
    assert(views(acc@) =~= Seq::<Seq<char>>::empty());
    assert(cur@ =~= Seq::<char>::empty());
    while i < s.len()
        invariant
            i <= s@.len(),
            pieces(s@, sep) == pieces_from(s@, sep, i as int, cur@, views(acc@)),
        decreases s@.len() - i,
    {
        let c = s[i];
        let ghost old_acc = views(acc@);
        if c == sep {
            let w = cur;
            acc.push(w);
            assert(views(acc@) =~= old_acc.push(w@));
            cur = Vec::new();
            assert(cur@ =~= Seq::<char>::empty());
        } else {
            cur.push(c);
        }
        i = i + 1;
    }
    let ghost old_acc = views(acc@);
    let ghost w = cur@;
    acc.push(cur);
    assert(views(acc@) =~= old_acc.push(w));
    acc
}

/// Joins `parts` with `sep` between consecutive parts.
pub fn join_chars(parts: &Vec<Vec<char>>, sep: &[char]) -> (r: Vec<char>)
    ensures
        r@ == join(views(parts@), sep@),
{
    let mut out: Vec<char> = Vec::new();
    let mut i: usize = 0;
    while i < parts.len()
        invariant
            i <= parts@.len(),
            out@ == join(views(parts@).take(i as int), sep@),
        decreases parts@.len() - i,
    {
        let ghost before = out@;
        if i > 0 {
            let mut j: usize = 0;
            while j < sep.len()
                invariant
                    j <= sep@.len(),
                    out@ == before + sep@.take(j as int),
                decreases sep@.len() - j,
            {
                out.push(sep[j]);
                j = j + 1;
                assert(out@ =~= before + sep@.take(j as int));
            }
            assert(sep@.take(sep@.len() as int) =~= sep@);
        }
        let ghost mid = out@;
        let part = &parts[i];
        let mut k: usize = 0;
        while k < part.len()
            invariant
                k <= part@.len(),
                out@ == mid + part@.take(k as int),
            decreases part@.len() - k,
        {
            out.push(part[k]);
            k = k + 1;
            assert(out@ =~= mid + part@.take(k as int));
        }
        assert(part@.take(part@.len() as int) =~= part@);
        proof {
            let ps = views(parts@).take(i + 1);
            assert(ps.drop_last() =~= views(parts@).take(i as int));
            if i == 0 {
                assert(out@ =~= ps[0]);
            } else {
                assert(out@ =~= join(ps.drop_last(), sep@) + sep@ + ps.last());
            }
        }
        i = i + 1;
    }
    assert(views(parts@).take(parts@.len() as int) =~= views(parts@));
    out
}

/// Whether `needle` occurs in `hay` starting at position `at`.
pub fn occurs_at_exec(hay: &[char], needle: &[char], at: usize) -> (r: bool)
    ensures
        r == occurs_at(hay@, needle@, at as int),
{
    if needle.len() > hay.len() || at > hay.len() - needle.len() {
        return false;
    }
    let mut k: usize = 0;
    while k < needle.len()
        invariant
            k <= needle@.len(),
            at + needle@.len() <= hay@.len(),
            hay@.len() == hay.len(),
            forall|t: int| 0 <= t < k ==> hay@[at + t] == needle@[t],
        decreases needle@.len() - k,
    {
        if hay[at + k] != needle[k] {
            assert(hay@.subrange(at as int, at + needle@.len())[k as int] != needle@[k as int]);
            return false;
        }
        k = k + 1;
    }
    assert(hay@.subrange(at as int, at + needle@.len()) =~= needle@);
    true
}

/// Whether `needle` occurs somewhere in `hay`.
pub fn contains_chars(hay: &[char], needle: &[char]) -> (r: bool)
    ensures
        r == contains(hay@, needle@),
{
    if needle.len() > hay.len() {
        assert forall|i: int| !occurs_at(hay@, needle@, i) by {}
        return false;
    }
    let last = hay.len() - needle.len();
    let mut at: usize = 0;
    while at < last
        invariant
            last == hay@.len() - needle@.len(),
            at <= last,
            forall|i: int| 0 <= i < at ==> !occurs_at(hay@, needle@, i),
        decreases last - at,
    {
        if occurs_at_exec(hay, needle, at) {
            return true;
        }
        at = at + 1;
    }
    if occurs_at_exec(hay, needle, last) {
        return true;
    }
    assert forall|i: int| !occurs_at(hay@, needle@, i) by {
        if 0 <= i && i < at {
        }
    }
    false
}

/// The lower-case form of `s` that `str::to_lowercase` gives.
pub uninterp spec fn lowercase(s: Seq<char>) -> Seq<char>;

/// Whether every character of `s` is ASCII.
pub open spec fn is_ascii_text(s: Seq<char>) -> bool {
    forall|i: int| 0 <= i < s.len() ==> (#[trigger] s[i] as int) < 128
}

/// The code of `c` with an ASCII capital letter made small.
pub open spec fn ascii_lower_code(c: char) -> int {
    if 'A' <= c && c <= 'Z' {
        c as int + 32
    } else {
        c as int
    }
}

/// Whether `t` is `s` with its ASCII capital letters made small.
pub open spec fn is_ascii_lowered(s: Seq<char>, t: Seq<char>) -> bool {
    &&& t.len() == s.len()
    &&& forall|i: int| 0 <= i < s.len() ==> #[trigger] t[i] as int == ascii_lower_code(s[i])
}

/// `str::to_lowercase`. The contract names its result `lowercase(s@)`, and states what the
/// documentation gives: every character maps to one or more characters, so the result is no
/// shorter; on ASCII text the mapping is the ASCII one (`A`-`Z` to `a`-`z`, all else kept).
/// Unicode's full case mapping (context-dependent for a final sigma) is not restated.
#[verifier::external_body]
pub fn to_lowercase(s: &str) -> (r: String)
    ensures
        r@ == lowercase(s@),
        r@.len() >= s@.len(),
        is_ascii_text(s@) ==> is_ascii_lowered(s@, r@),
{
    s.to_lowercase()
}

/// Whether `w` is a word: not empty and without white space.
pub open spec fn is_word(w: Seq<char>) -> bool {
    w.len() > 0 && forall|k: int| 0 <= k < w.len() ==> !is_ws(#[trigger] w[k])
}

proof fn lemma_words_from_are_words(s: Seq<char>, i: int, cur: Seq<char>, acc: Seq<Seq<char>>)
    requires
        0 <= i,
        forall|k: int| 0 <= k < cur.len() ==> !is_ws(#[trigger] cur[k]),
        forall|k: int| 0 <= k < acc.len() ==> is_word(#[trigger] acc[k]),
    ensures
        forall|k: int| 0 <= k < words_from(s, i, cur, acc).len() ==> is_word(
            #[trigger] words_from(s, i, cur, acc)[k],
        ),
    decreases s.len() - i,
{
    if i < s.len() {
        if is_ws(s[i]) {
            let na = if cur.len() > 0 { acc.push(cur) } else { acc };
            assert forall|k: int| 0 <= k < na.len() implies is_word(#[trigger] na[k]) by {
                if k < acc.len() {
                    assert(na[k] == acc[k]);
                }
            }
            lemma_words_from_are_words(s, i + 1, Seq::empty(), na);
            assert(words_from(s, i, cur, acc) == words_from(s, i + 1, Seq::empty(), na));
        } else {
            let c = cur.push(s[i]);
            assert forall|k: int| 0 <= k < c.len() implies !is_ws(#[trigger] c[k]) by {
                if k < cur.len() {
                    assert(c[k] == cur[k]);
                }
            }
            lemma_words_from_are_words(s, i + 1, c, acc);
            assert(words_from(s, i, cur, acc) == words_from(s, i + 1, c, acc));
        }
    } else if cur.len() > 0 {
        let na = acc.push(cur);
        assert forall|k: int| 0 <= k < na.len() implies is_word(#[trigger] na[k]) by {
            if k < acc.len() {
                assert(na[k] == acc[k]);
            }
        }
        assert(words_from(s, i, cur, acc) == na);
    } else {
        assert(words_from(s, i, cur, acc) == acc);
    }
}

/// The words of a text are not empty and hold no white space.
pub proof fn lemma_words_are_words(s: Seq<char>)
    ensures
        forall|k: int| 0 <= k < words(s).len() ==> is_word(#[trigger] words(s)[k]),
{
    lemma_words_from_are_words(s, 0, Seq::empty(), Seq::empty());
}

/// Whether `t` has no space at either end and no two spaces in a row.
pub open spec fn single_spaced(t: Seq<char>) -> bool {
    &&& t.len() > 0 ==> t[0] != ' ' && t.last() != ' '
    &&& forall|k: int| 0 <= k < t.len() - 1 ==> !(#[trigger] t[k] == ' ' && t[k + 1] == ' ')
}

/// Non-empty parts without spaces, joined by single spaces, give a single-spaced text.
pub proof fn lemma_join_single_spaced(parts: Seq<Seq<char>>)
    requires
        forall|p: int| 0 <= p < parts.len() ==> (#[trigger] parts[p]).len() > 0,
        forall|p: int, k: int| 0 <= p < parts.len() && 0 <= k < parts[p].len() ==> #[trigger] parts[p][k] != ' ',
    ensures
        single_spaced(join(parts, seq![' '])),
    decreases parts.len(),
{
    if parts.len() == 1 {
        let t = parts[0];
        assert(t[0] != ' ');
        assert(t[t.len() - 1] != ' ');
    } else if parts.len() > 1 {
        let front = parts.drop_last();
        assert forall|p: int| 0 <= p < front.len() implies (#[trigger] front[p]).len() > 0 by {
            assert(front[p] == parts[p]);
        }
        assert forall|p: int, k: int| 0 <= p < front.len() && 0 <= k < front[p].len() implies #[trigger] front[p][k] != ' ' by {
            assert(front[p] == parts[p]);
        }
        lemma_join_single_spaced(front);
        let j = join(front, seq![' ']);
        let l = parts.last();
        assert(l == parts[parts.len() - 1]);
        assert(l.len() > 0);
        assert(forall|k: int| 0 <= k < l.len() ==> l[k] != ' ');
        lemma_join_nonempty(front);
        let t = j + seq![' '] + l;
        assert(t == join(parts, seq![' ']));
        assert(t[0] == j[0]);
        assert(t.last() == l[l.len() - 1]);
        assert forall|k: int| 0 <= k < t.len() - 1 implies !(#[trigger] t[k] == ' ' && t[k + 1] == ' ') by {
            if k < j.len() - 1 {
                assert(t[k] == j[k] && t[k + 1] == j[k + 1]);
            } else if k == j.len() - 1 {
                assert(t[k] == j.last());
            } else if k == j.len() {
                assert(t[k + 1] == l[0]);
            } else {
                assert(t[k] == l[k - j.len() - 1]);
            }
        }
    }
}

pub proof fn lemma_join_nonempty_words(parts: Seq<Seq<char>>)
    requires
        parts.len() > 0,
        forall|p: int| 0 <= p < parts.len() ==> is_word(#[trigger] parts[p]),
    ensures
        join(parts, seq![' ']).len() > 0,
{
    assert forall|p: int| 0 <= p < parts.len() implies (#[trigger] parts[p]).len() > 0 by {
        assert(is_word(parts[p]));
    }
    lemma_join_nonempty(parts);
}

proof fn lemma_join_nonempty(parts: Seq<Seq<char>>)
    requires
        parts.len() > 0,
        forall|p: int| 0 <= p < parts.len() ==> (#[trigger] parts[p]).len() > 0,
    ensures
        join(parts, seq![' ']).len() > 0,
    decreases parts.len(),
{
    if parts.len() > 1 {
        assert(parts.drop_last()[0] == parts[0]);
        assert forall|p: int| 0 <= p < parts.drop_last().len() implies (#[trigger] parts.drop_last()[p]).len() > 0 by {
            assert(parts.drop_last()[p] == parts[p]);
        }
        lemma_join_nonempty(parts.drop_last());
    } else {
        assert(parts[0].len() > 0);
    }
}

proof fn lemma_words_from_suffix(x: Seq<char>, t: Seq<char>, i: int, cur: Seq<char>, acc: Seq<Seq<char>>)
    requires
        0 <= i,
    ensures
        words_from(x + t, x.len() + i, cur, acc) == words_from(t, i, cur, acc),
    decreases t.len() - i,
{
    if i < t.len() {
        assert((x + t)[x.len() + i] == t[i]);
        let na = if cur.len() > 0 { acc.push(cur) } else { acc };
        lemma_words_from_suffix(x, t, i + 1, Seq::empty(), na);
        lemma_words_from_suffix(x, t, i + 1, cur.push(t[i]), acc);
    }
}

proof fn lemma_words_from_run(s: Seq<char>, i: int, j: int, cur: Seq<char>, acc: Seq<Seq<char>>)
    requires
        0 <= i <= j <= s.len(),
        forall|k: int| i <= k < j ==> !is_ws(#[trigger] s[k]),
    ensures
        words_from(s, i, cur, acc) == words_from(s, j, cur + s.subrange(i, j), acc),
    decreases j - i,
{
    if i == j {
        assert(cur + s.subrange(i, j) =~= cur);
    } else {
        lemma_words_from_run(s, i + 1, j, cur.push(s[i]), acc);
        assert(cur.push(s[i]) + s.subrange(i + 1, j) =~= cur + s.subrange(i, j));
    }
}

proof fn lemma_join_first(parts: Seq<Seq<char>>, sep: Seq<char>)
    requires
        parts.len() >= 2,
    ensures
        join(parts, sep) == parts[0] + sep + join(parts.drop_first(), sep),
    decreases parts.len(),
{
    if parts.len() == 2 {
        assert(parts.drop_last().len() == 1);
        assert(parts.drop_first().len() == 1);
        assert(join(parts.drop_last(), sep) == parts[0]);
        assert(join(parts.drop_first(), sep) == parts[1]);
    } else {
        let front = parts.drop_last();
        lemma_join_first(front, sep);
        assert(front[0] == parts[0]);
        assert(front.drop_first() =~= parts.drop_first().drop_last());
        assert(parts.drop_first().last() == parts.last());
        assert(join(parts, sep) == join(front, sep) + sep + parts.last());
        assert(join(parts.drop_first(), sep) == join(parts.drop_first().drop_last(), sep) + sep
            + parts.drop_first().last());
        assert(join(parts, sep) =~= parts[0] + sep + join(parts.drop_first(), sep));
    }
}

proof fn lemma_words_from_join(parts: Seq<Seq<char>>, acc: Seq<Seq<char>>)
    requires
        forall|p: int| 0 <= p < parts.len() ==> is_word(#[trigger] parts[p]),
    ensures
        words_from(join(parts, seq![' ']), 0, Seq::empty(), acc) == acc + parts,
    decreases parts.len(),
{
    let t = join(parts, seq![' ']);
    if parts.len() == 0 {
        assert(acc + parts =~= acc);
    } else {
        let p0 = parts[0];
        assert(is_word(p0));
        if parts.len() == 1 {
            assert(t == p0);
            lemma_words_from_run(t, 0, p0.len() as int, Seq::empty(), acc);
            assert(Seq::<char>::empty() + t.subrange(0, p0.len() as int) =~= p0);
            assert(acc + parts =~= acc.push(p0));
        } else {
            let rest = join(parts.drop_first(), seq![' ']);
            lemma_join_first(parts, seq![' ']);
            let x = p0 + seq![' '];
            assert(t =~= x + rest);
            assert forall|k: int| 0 <= k < p0.len() implies !is_ws(#[trigger] t[k]) by {
                assert(t[k] == p0[k]);
            }
            lemma_words_from_run(t, 0, p0.len() as int, Seq::empty(), acc);
            assert(Seq::<char>::empty() + t.subrange(0, p0.len() as int) =~= p0);
            assert(t[p0.len() as int] == ' ');
            assert(words_from(t, p0.len() as int, p0, acc) == words_from(t, p0.len() as int + 1, Seq::empty(), acc.push(p0)));
            lemma_words_from_suffix(x, rest, 0, Seq::empty(), acc.push(p0));
            assert forall|p: int| 0 <= p < parts.drop_first().len() implies is_word(#[trigger] parts.drop_first()[p]) by {
                assert(parts.drop_first()[p] == parts[p + 1]);
            }
            lemma_words_from_join(parts.drop_first(), acc.push(p0));
            assert(acc.push(p0) + parts.drop_first() =~= acc + parts);
        }
    }
}

/// Splitting words joined by single spaces gives the words back.
pub proof fn lemma_words_of_join(parts: Seq<Seq<char>>)
    requires
        forall|p: int| 0 <= p < parts.len() ==> is_word(#[trigger] parts[p]),
    ensures
        words(join(parts, seq![' '])) == parts,
{
    lemma_words_from_join(parts, Seq::empty());
    assert(Seq::<Seq<char>>::empty() + parts =~= parts);
}

proof fn lemma_words_from_acc(s: Seq<char>, i: int, cur: Seq<char>, acc: Seq<Seq<char>>)
    requires
        0 <= i,
    ensures
        words_from(s, i, cur, acc) == acc + words_from(s, i, cur, Seq::empty()),
    decreases s.len() - i,
{
    if i < s.len() {
        if is_ws(s[i]) {
            if cur.len() > 0 {
                lemma_words_from_acc(s, i + 1, Seq::empty(), acc.push(cur));
                lemma_words_from_acc(s, i + 1, Seq::empty(), seq![cur]);
                assert(Seq::<Seq<char>>::empty().push(cur) =~= seq![cur]);
                assert(acc.push(cur) + words_from(s, i + 1, Seq::empty(), Seq::empty()) =~= acc + (seq![cur]
                    + words_from(s, i + 1, Seq::empty(), Seq::empty())));
            } else {
                lemma_words_from_acc(s, i + 1, Seq::empty(), acc);
            }
        } else {
            lemma_words_from_acc(s, i + 1, cur.push(s[i]), acc);
            lemma_words_from_acc(s, i + 1, cur.push(s[i]), Seq::empty());
        }
    } else {
        if cur.len() > 0 {
            assert(Seq::<Seq<char>>::empty().push(cur) =~= seq![cur]);
            assert(acc.push(cur) =~= acc + seq![cur]);
        } else {
            assert(acc =~= acc + Seq::<Seq<char>>::empty());
        }
    }
}

proof fn lemma_words_from_concat(x: Seq<char>, t: Seq<char>, i: int, cur: Seq<char>, acc: Seq<Seq<char>>)
    requires
        0 <= i <= x.len(),
        t.len() > 0,
        is_ws(t[0]),
    ensures
        words_from(x + t, i, cur, acc) == words_from(t, 0, Seq::empty(), words_from(x, i, cur, acc)),
    decreases x.len() - i,
{
    if i < x.len() {
        assert((x + t)[i] == x[i]);
        if is_ws(x[i]) {
            lemma_words_from_concat(x, t, i + 1, Seq::empty(), if cur.len() > 0 { acc.push(cur) } else { acc });
        } else {
            lemma_words_from_concat(x, t, i + 1, cur.push(x[i]), acc);
        }
    } else {
        assert((x + t)[i] == t[0]);
        let r = if cur.len() > 0 { acc.push(cur) } else { acc };
        assert(words_from(x, i, cur, acc) == r);
        lemma_words_from_suffix(x, t, 1, Seq::empty(), r);
        assert(x.len() + 1 == i + 1);
    }
}

/// The words of two texts parted by white space are the words of each, in turn.
pub proof fn lemma_words_concat(x: Seq<char>, t: Seq<char>)
    requires
        t.len() > 0,
        is_ws(t[0]),
    ensures
        words(x + t) == words(x) + words(t),
{
    lemma_words_from_concat(x, t, 0, Seq::empty(), Seq::empty());
    lemma_words_from_acc(t, 0, Seq::empty(), words(x));
}

/// A join is at least as long as the join of a leading part of its parts.
pub proof fn lemma_join_prefix_len(p: Seq<Seq<char>>, q: Seq<Seq<char>>, sep: Seq<char>)
    ensures
        join(p + q, sep).len() >= join(p, sep).len(),
    decreases q.len(),
{
    if q.len() > 0 {
        let pq = p + q;
        lemma_join_prefix_len(p, q.drop_last(), sep);
        assert(pq.drop_last() =~= p + q.drop_last());
        if pq.len() == 1 {
            assert(p.len() == 0);
        }
    } else {
        assert(p + q =~= p);
    }
}

/// Whether `t` is `s` up to the case of ASCII letters.
pub open spec fn same_but_case(s: Seq<char>, t: Seq<char>) -> bool {
    &&& s.len() == t.len()
    &&& forall|i: int| 0 <= i < s.len() ==> #[trigger] ascii_lower_code(s[i]) == ascii_lower_code(t[i])
}

/// Whether two sequences of words agree word by word up to the case of ASCII letters.
pub open spec fn words_same_but_case(a: Seq<Seq<char>>, b: Seq<Seq<char>>) -> bool {
    &&& a.len() == b.len()
    &&& forall|i: int| 0 <= i < a.len() ==> #[trigger] same_but_case(a[i], b[i])
}

/// Whether every word is ASCII text.
pub open spec fn all_ascii_words(ws: Seq<Seq<char>>) -> bool {
    forall|i: int| 0 <= i < ws.len() ==> #[trigger] is_ascii_text(ws[i])
}

/// Splitting into words respects case variants: the words of texts that differ only in the
/// case of ASCII letters differ only so, and the words of ASCII text are ASCII.
pub proof fn lemma_words_from_same_but_case(
    s: Seq<char>,
    t: Seq<char>,
    i: int,
    cur_s: Seq<char>,
    cur_t: Seq<char>,
    acc_s: Seq<Seq<char>>,
    acc_t: Seq<Seq<char>>,
)
    requires
        same_but_case(s, t),
        same_but_case(cur_s, cur_t),
        words_same_but_case(acc_s, acc_t),
        0 <= i,
    ensures
        words_same_but_case(words_from(s, i, cur_s, acc_s), words_from(t, i, cur_t, acc_t)),
        is_ascii_text(s) && is_ascii_text(cur_s) && all_ascii_words(acc_s) ==> all_ascii_words(
            words_from(s, i, cur_s, acc_s),
        ),
    decreases s.len() - i,
{
    if i < s.len() {
        assert(ascii_lower_code(s[i]) == ascii_lower_code(t[i]));
        assert(is_ws(s[i]) == is_ws(t[i]));
        if is_ws(s[i]) {
            let na_s = if cur_s.len() > 0 { acc_s.push(cur_s) } else { acc_s };
            let na_t = if cur_t.len() > 0 { acc_t.push(cur_t) } else { acc_t };
            assert(words_same_but_case(na_s, na_t)) by {
                if cur_s.len() > 0 {
                    assert forall|k: int| 0 <= k < na_s.len() implies #[trigger] same_but_case(na_s[k], na_t[k]) by {
                        if k < acc_s.len() {
                            assert(same_but_case(acc_s[k], acc_t[k]));
                        }
                    }
                }
            }
            assert(is_ascii_text(s) && is_ascii_text(cur_s) && all_ascii_words(acc_s) ==> all_ascii_words(na_s)) by {
                if is_ascii_text(s) && is_ascii_text(cur_s) && all_ascii_words(acc_s) && cur_s.len() > 0 {
                    assert forall|k: int| 0 <= k < na_s.len() implies #[trigger] is_ascii_text(na_s[k]) by {
                        if k < acc_s.len() {
                            assert(is_ascii_text(acc_s[k]));
                        }
                    }
                }
            }
            assert(is_ascii_text(Seq::<char>::empty()));
            lemma_words_from_same_but_case(s, t, i + 1, Seq::empty(), Seq::empty(), na_s, na_t);
        } else {
            let c_s = cur_s.push(s[i]);
            let c_t = cur_t.push(t[i]);
            assert(same_but_case(c_s, c_t)) by {
                assert forall|k: int| 0 <= k < c_s.len() implies #[trigger] ascii_lower_code(c_s[k]) == ascii_lower_code(c_t[k]) by {
                    if k < cur_s.len() {
                        assert(ascii_lower_code(cur_s[k]) == ascii_lower_code(cur_t[k]));
                    }
                }
            }
            assert(is_ascii_text(s) && is_ascii_text(cur_s) ==> is_ascii_text(c_s)) by {
                if is_ascii_text(s) && is_ascii_text(cur_s) {
                    assert forall|k: int| 0 <= k < c_s.len() implies (#[trigger] c_s[k] as int) < 128 by {
                        if k < cur_s.len() {
                            assert((cur_s[k] as int) < 128);
                        } else {
                            assert((s[i] as int) < 128);
                        }
                    }
                }
            }
            lemma_words_from_same_but_case(s, t, i + 1, c_s, c_t, acc_s, acc_t);
        }
    } else {
        if cur_s.len() > 0 {
            let na_s = acc_s.push(cur_s);
            let na_t = acc_t.push(cur_t);
            assert forall|k: int| 0 <= k < na_s.len() implies #[trigger] same_but_case(na_s[k], na_t[k]) by {
                if k < acc_s.len() {
                    assert(same_but_case(acc_s[k], acc_t[k]));
                }
            }
            if is_ascii_text(s) && is_ascii_text(cur_s) && all_ascii_words(acc_s) {
                assert forall|k: int| 0 <= k < na_s.len() implies #[trigger] is_ascii_text(na_s[k]) by {
                    if k < acc_s.len() {
                        assert(is_ascii_text(acc_s[k]));
                    }
                }
            }
        }
    }
}

/// The words of texts that differ only in the case of ASCII letters differ only so, and the
/// words of ASCII text are ASCII.
pub proof fn lemma_words_same_but_case(s: Seq<char>, t: Seq<char>)
    requires
        same_but_case(s, t),
    ensures
        words_same_but_case(words(s), words(t)),
        is_ascii_text(s) ==> all_ascii_words(words(s)),
{
    assert(same_but_case(Seq::<char>::empty(), Seq::<char>::empty()));
    assert(words_same_but_case(Seq::<Seq<char>>::empty(), Seq::<Seq<char>>::empty()));
    assert(is_ascii_text(Seq::<char>::empty()));
    assert(all_ascii_words(Seq::<Seq<char>>::empty()));
    lemma_words_from_same_but_case(s, t, 0, Seq::empty(), Seq::empty(), Seq::empty(), Seq::empty());
}

} // verus!

verus! {

/// The decimal digit character for `d < 10`.
pub open spec fn digit_char(d: nat) -> char {
    if d == 0 { '0' }
    else if d == 1 { '1' }
    else if d == 2 { '2' }
    else if d == 3 { '3' }
    else if d == 4 { '4' }
    else if d == 5 { '5' }
    else if d == 6 { '6' }
    else if d == 7 { '7' }
    else if d == 8 { '8' }
    else { '9' }
}

/// The decimal rendering of `n`, without sign or leading zeros (what `{}` prints for an
/// unsigned integer).
pub open spec fn decimal(n: nat) -> Seq<char>
    decreases n,
{
    if n < 10 {
        seq![digit_char(n)]
    } else {
        decimal(n / 10).push(digit_char(n % 10))
    }
}

/// A decimal rendering holds no line break.
pub proof fn lemma_decimal_no_newline(n: nat)
    ensures
        forall|k: int| 0 <= k < decimal(n).len() ==> #[trigger] decimal(n)[k] != '\n',
    decreases n,
{
    if n >= 10 {
        lemma_decimal_no_newline(n / 10);
        let d = decimal(n / 10);
        assert forall|k: int| 0 <= k < decimal(n).len() implies #[trigger] decimal(n)[k] != '\n' by {
            if k < d.len() {
                assert(decimal(n)[k] == d[k]);
            }
        }
    }
}

fn digit_of(d: u64) -> (c: char)
    requires
        d < 10,
    ensures
        c == digit_char(d as nat),
{
    if d == 0 { '0' }
    else if d == 1 { '1' }
    else if d == 2 { '2' }
    else if d == 3 { '3' }
    else if d == 4 { '4' }
    else if d == 5 { '5' }
    else if d == 6 { '6' }
    else if d == 7 { '7' }
    else if d == 8 { '8' }
    else { '9' }
}

/// Renders `n` in decimal.
pub fn decimal_string(n: u64) -> (r: String)
    ensures
        r@ == decimal(n as nat),
{
    // digits are collected least significant first, then reversed
    let mut rev: Vec<char> = Vec::new();
    let mut m: u64 = n;
    rev.push(digit_of(m % 10));
    m = m / 10;
    while m > 0
        invariant
            m <= n,
            m > 0 ==> decimal(n as nat) == decimal(m as nat) + rev@.reverse(),
            m == 0 ==> decimal(n as nat) == rev@.reverse(),
        decreases m,
    {
        let d = m % 10;
        proof {
            assert(decimal(m as nat) == if m < 10 { seq![digit_char(m as nat)] } else { decimal(
                (m / 10) as nat) .push(digit_char((m % 10) as nat)) });
        }
        let ghost old_rev = rev@;
        rev.push(digit_of(d));
        assert(rev@.reverse() =~= seq![digit_char(d as nat)] + old_rev.reverse());
        m = m / 10;
        proof {
            if m == 0 {
                assert(decimal((m * 10 + d) as nat) =~= seq![digit_char(d as nat)]);
            }
        }
    }
    let mut out = String::new();
    let mut i: usize = rev.len();
    while i > 0
        invariant
            i <= rev@.len(),
            out@ == rev@.reverse().take(rev@.len() - i),
        decreases i,
    {
        i = i - 1;
        push_char(&mut out, rev[i]);
        assert(out@ =~= rev@.reverse().take(rev@.len() - i));
    }
    assert(rev@.reverse().take(rev@.len() as int) =~= rev@.reverse());
    out
}

} // verus!

verus! {

/// Whether two strings hold the same characters.
pub fn same_text(a: &str, b: &str) -> (r: bool)
    ensures
        r == (a@ == b@),
{
    let x = chars_of(a);
    let y = chars_of(b);
    if x.len() != y.len() {
        assert(x@.len() != y@.len());
        return false;
    }
    let mut i: usize = 0;
    while i < x.len()
        invariant
            i <= x@.len(),
            x@.len() == y@.len(),
            x@ == a@,
            y@ == b@,
            forall|k: int| 0 <= k < i ==> x@[k] == y@[k],
        decreases x@.len() - i,
    {
        if x[i] != y[i] {
            assert(x@[i as int] != y@[i as int]);
            assert(x@ != y@);
            return false;
        }
        i = i + 1;
    }
    assert(x@ =~= y@);
    true
}

/// Whether two character slices are equal.
pub fn same_chars(a: &[char], b: &[char]) -> (r: bool)
    ensures
        r == (a@ == b@),
{
    if a.len() != b.len() {
        return false;
    }
    let mut i: usize = 0;
    while i < a.len()
        invariant
            i <= a@.len(),
            a@.len() == b@.len(),
            forall|k: int| 0 <= k < i ==> a@[k] == b@[k],
        decreases a@.len() - i,
    {
        if a[i] != b[i] {
            assert(a@[i as int] != b@[i as int]);
            return false;
        }
        i = i + 1;
    }
    assert(a@ =~= b@);
    true
}

} // verus!

verus! {

/// The characters of an optional string.
pub open spec fn opt_text(o: Option<String>) -> Option<Seq<char>> {
    match o {
        Some(s) => Some(s@),
        None => None,
    }
}

} // verus!

verus! {

/// Strict lexicographic order on character sequences by code point (the order of `str`).
pub open spec fn chars_less(a: Seq<char>, b: Seq<char>) -> bool
    decreases a.len(),
{
    if a.len() == 0 {
        b.len() > 0
    } else if b.len() == 0 {
        false
    } else if (a[0] as u32) < (b[0] as u32) {
        true
    } else if a[0] == b[0] {
        chars_less(a.drop_first(), b.drop_first())
    } else {
        false
    }
}

/// The order on character sequences is transitive.
pub proof fn lemma_chars_less_transitive(a: Seq<char>, b: Seq<char>, c: Seq<char>)
    requires
        chars_less(a, b),
        chars_less(b, c),
    ensures
        chars_less(a, c),
    decreases a.len(),
{
    if a.len() > 0 && b.len() > 0 && c.len() > 0 {
        if a[0] == b[0] && b[0] == c[0] {
            lemma_chars_less_transitive(a.drop_first(), b.drop_first(), c.drop_first());
        }
    }
}

/// The order on character sequences is irreflexive.
pub proof fn lemma_chars_less_irreflexive(a: Seq<char>)
    ensures
        !chars_less(a, a),
    decreases a.len(),
{
    if a.len() > 0 {
        lemma_chars_less_irreflexive(a.drop_first());
    }
}

/// Whether `a` orders strictly before `b`.
pub fn chars_before(a: &[char], b: &[char]) -> (r: bool)
    ensures
        r == chars_less(a@, b@),
{
    let mut i: usize = 0;
    assert(a@.skip(0) =~= a@);
    assert(b@.skip(0) =~= b@);
    while i < a.len() && i < b.len()
        invariant
            i <= a@.len(),
            i <= b@.len(),
            a@.take(i as int) == b@.take(i as int),
            chars_less(a@, b@) == chars_less(a@.skip(i as int), b@.skip(i as int)),
        decreases a@.len() - i,
    {
        let x = a[i];
        let y = b[i];
        proof {
            let sa = a@.skip(i as int);
            let sb = b@.skip(i as int);
            assert(sa[0] == x);
            assert(sb[0] == y);
            assert(sa.drop_first() =~= a@.skip(i + 1));
            assert(sb.drop_first() =~= b@.skip(i + 1));
        }
        if (x as u32) < (y as u32) {
            return true;
        }
        if x != y {
            return false;
        }
        assert(a@.take(i + 1) =~= a@.take(i as int).push(x));
        assert(b@.take(i + 1) =~= b@.take(i as int).push(y));
        i = i + 1;
    }
    assert(a@.skip(i as int).len() == 0 || b@.skip(i as int).len() == 0);
    i < b.len()
}

} // verus!

verus! {

/// The number of leading white-space characters of `s`.
pub open spec fn leading_ws(s: Seq<char>) -> nat
    decreases s.len(),
{
    if s.len() > 0 && is_ws(s[0]) {
        1 + leading_ws(s.drop_first())
    } else {
        0
    }
}

/// The number of trailing white-space characters of `s`.
pub open spec fn trailing_ws(s: Seq<char>) -> nat
    decreases s.len(),
{
    if s.len() > 0 && is_ws(s.last()) {
        1 + trailing_ws(s.drop_last())
    } else {
        0
    }
}

/// `s` without leading white space (`str::trim_start`).
pub open spec fn trim_start(s: Seq<char>) -> Seq<char> {
    s.skip(leading_ws(s) as int)
}

/// `s` without trailing white space (`str::trim_end`).
pub open spec fn trim_end(s: Seq<char>) -> Seq<char> {
    s.take(s.len() - trailing_ws(s))
}

/// `s` without leading or trailing white space (`str::trim`).
pub open spec fn trim(s: Seq<char>) -> Seq<char> {
    trim_end(trim_start(s))
}

proof fn lemma_leading_ws_bound(s: Seq<char>)
    ensures
        leading_ws(s) <= s.len(),
    decreases s.len(),
{
    if s.len() > 0 && is_ws(s[0]) {
        lemma_leading_ws_bound(s.drop_first());
    }
}

proof fn lemma_trailing_ws_bound(s: Seq<char>)
    ensures
        trailing_ws(s) <= s.len(),
    decreases s.len(),
{
    if s.len() > 0 && is_ws(s.last()) {
        lemma_trailing_ws_bound(s.drop_last());
    }
}

/// Removes leading white space.
pub fn trim_start_chars(s: &[char]) -> (r: Vec<char>)
    ensures
        r@ == trim_start(s@),
{
    let mut i: usize = 0;
    proof {
        lemma_leading_ws_bound(s@);
    }
    assert(s@.skip(0) =~= s@);
    while i < s.len() && is_whitespace(s[i])
        invariant
            i <= s@.len(),
            leading_ws(s@) == i + leading_ws(s@.skip(i as int)),
        decreases s@.len() - i,
    {
        assert(s@.skip(i as int).drop_first() =~= s@.skip(i + 1));
        i = i + 1;
    }
    assert(leading_ws(s@.skip(i as int)) == 0);
    let mut out: Vec<char> = Vec::new();
    let mut j: usize = i;
    while j < s.len()
        invariant
            i <= j <= s@.len(),
            out@ == s@.subrange(i as int, j as int),
        decreases s@.len() - j,
    {
        out.push(s[j]);
        j = j + 1;
        assert(out@ =~= s@.subrange(i as int, j as int));
    }
    assert(out@ =~= s@.skip(i as int));
    out
}

/// Removes trailing white space.
pub fn trim_end_chars(s: &[char]) -> (r: Vec<char>)
    ensures
        r@ == trim_end(s@),
{
    let mut n: usize = s.len();
    proof {
        lemma_trailing_ws_bound(s@);
    }
    assert(s@.take(n as int) =~= s@);
    while n > 0 && is_whitespace(s[n - 1])
        invariant
            n <= s@.len(),
            trailing_ws(s@) == (s@.len() - n) + trailing_ws(s@.take(n as int)),
        decreases n,
    {
        assert(s@.take(n as int).drop_last() =~= s@.take(n - 1));
        n = n - 1;
    }
    assert(trailing_ws(s@.take(n as int)) == 0);
    let mut out: Vec<char> = Vec::new();
    let mut j: usize = 0;
    while j < n
        invariant
            j <= n <= s@.len(),
            out@ == s@.take(j as int),
        decreases n - j,
    {
        out.push(s[j]);
        j = j + 1;
        assert(out@ =~= s@.take(j as int));
    }
    out
}

/// Removes leading and trailing white space.
pub fn trim_chars(s: &[char]) -> (r: Vec<char>)
    ensures
        r@ == trim(s@),
{
    let a = trim_start_chars(s);
    trim_end_chars(a.as_slice())
}

/// Whether `s` begins with `prefix`.
pub open spec fn starts_with(s: Seq<char>, prefix: Seq<char>) -> bool {
    prefix.len() <= s.len() && s.take(prefix.len() as int) == prefix
}

/// Whether `s` begins with `prefix`.
pub fn starts_with_chars(s: &[char], prefix: &[char]) -> (r: bool)
    ensures
        r == starts_with(s@, prefix@),
{
    if prefix.len() > s.len() {
        return false;
    }
    let r = occurs_at_exec(s, prefix, 0);
    assert(s@.subrange(0, prefix@.len() as int) =~= s@.take(prefix@.len() as int));
    r
}

/// The elements of `s` from `start` on.
pub fn skip_chars(s: &[char], start: usize) -> (r: Vec<char>)
    requires
        start <= s@.len(),
    ensures
        r@ == s@.skip(start as int),
{
    let mut out: Vec<char> = Vec::new();
    let mut j: usize = start;
    while j < s.len()
        invariant
            start <= j <= s@.len(),
            out@ == s@.subrange(start as int, j as int),
        decreases s@.len() - j,
    {
        out.push(s[j]);
        j = j + 1;
        assert(out@ =~= s@.subrange(start as int, j as int));
    }
    assert(out@ =~= s@.skip(start as int));
    out
}

/// The lines of `s` as `str::lines` yields them: split at `\n`, a final empty piece dropped,
/// and one trailing `\r` removed from each line.
pub open spec fn lines_of(s: Seq<char>) -> Seq<Seq<char>> {
    let ps = pieces(s, '\n');
    let kept = if ps.last().len() == 0 { ps.drop_last() } else { ps };
    kept.map_values(|l: Seq<char>| if l.len() > 0 && l.last() == '\r' { l.drop_last() } else { l })
}

/// A property of `pieces`: there is always at least one piece.
pub proof fn lemma_pieces_nonempty(s: Seq<char>, sep: char)
    ensures
        pieces(s, sep).len() >= 1,
{
    lemma_pieces_from_len(s, sep, 0, Seq::empty(), Seq::empty());
}

proof fn lemma_pieces_from_len(s: Seq<char>, sep: char, i: int, cur: Seq<char>, acc: Seq<Seq<char>>)
    ensures
        pieces_from(s, sep, i, cur, acc).len() >= acc.len() + 1,
    decreases s.len() - i,
{
    if i < s.len() {
        if s[i] == sep {
            lemma_pieces_from_len(s, sep, i + 1, Seq::empty(), acc.push(cur));
        } else {
            lemma_pieces_from_len(s, sep, i + 1, cur.push(s[i]), acc);
        }
    }
}

/// Every character of a join is a separator or a character of some part.
pub proof fn lemma_join_chars(parts: Seq<Seq<char>>, sep: char, k: int)
    requires
        0 <= k < join(parts, seq![sep]).len(),
    ensures
        join(parts, seq![sep])[k] == sep || exists|p: int, i: int|
            0 <= p < parts.len() && 0 <= i < parts[p].len() && #[trigger] parts[p][i] == join(parts, seq![sep])[k],
    decreases parts.len(),
{
    let j = join(parts, seq![sep]);
    if parts.len() == 1 {
        assert(j[k] == parts[0][k]);
    } else if parts.len() > 1 {
        let front = join(parts.drop_last(), seq![sep]);
        let l = parts.last();
        assert(j == front + seq![sep] + l);
        if k < front.len() {
            assert(j[k] == front[k]);
            lemma_join_chars(parts.drop_last(), sep, k);
            if front[k] != sep {
                let (p, i) = choose|p: int, i: int|
                    0 <= p < parts.drop_last().len() && 0 <= i < parts.drop_last()[p].len() && #[trigger] parts.drop_last()[p][i] == front[k];
                assert(parts[p] == parts.drop_last()[p]);
                assert(parts[p][i] == j[k]);
            }
        } else if k > front.len() {
            assert(j[k] == l[k - front.len() - 1]);
            assert(parts[parts.len() - 1][k - front.len() - 1] == j[k]);
        }
    }
}

proof fn lemma_join_push(acc: Seq<Seq<char>>, cur: Seq<char>, sep: char, x: Seq<char>)
    ensures
        join(acc.push(cur).push(x), seq![sep]) == join(acc.push(cur + seq![sep] + x), seq![sep]),
{
    assert(acc.push(cur).push(x).drop_last() =~= acc.push(cur));
    assert(acc.push(cur + seq![sep] + x).drop_last() =~= acc);
    assert(acc.push(cur).drop_last() =~= acc);
    if acc.len() == 0 {
        assert(join(acc.push(cur), seq![sep]) == cur);
        assert(join(acc.push(cur + seq![sep] + x), seq![sep]) == cur + seq![sep] + x);
    } else {
        assert(join(acc.push(cur), seq![sep]) == join(acc, seq![sep]) + seq![sep] + cur);
        assert(join(acc.push(cur + seq![sep] + x), seq![sep]) == join(acc, seq![sep]) + seq![sep] + (cur
            + seq![sep] + x));
    }
    assert(join(acc.push(cur).push(x), seq![sep]) =~= join(acc.push(cur + seq![sep] + x), seq![sep]));
}

proof fn lemma_join_pieces_from(s: Seq<char>, sep: char, i: int, cur: Seq<char>, acc: Seq<Seq<char>>)
    requires
        0 <= i <= s.len(),
    ensures
        join(pieces_from(s, sep, i, cur, acc), seq![sep]) == join(acc.push(cur + s.subrange(i, s.len() as int)), seq![sep]),
    decreases s.len() - i,
{
    if i < s.len() {
        if s[i] == sep {
            lemma_join_pieces_from(s, sep, i + 1, Seq::empty(), acc.push(cur));
            let x = s.subrange(i + 1, s.len() as int);
            assert(Seq::<char>::empty() + x =~= x);
            lemma_join_push(acc, cur, sep, x);
            assert(cur + seq![sep] + x =~= cur + s.subrange(i, s.len() as int));
        } else {
            lemma_join_pieces_from(s, sep, i + 1, cur.push(s[i]), acc);
            assert(cur.push(s[i]) + s.subrange(i + 1, s.len() as int) =~= cur + s.subrange(i, s.len() as int));
        }
    } else {
        assert(cur + s.subrange(i, s.len() as int) =~= cur);
    }
}

/// Joining the pieces of `s` split at `sep` with `sep` gives `s` back.
pub proof fn lemma_join_pieces(s: Seq<char>, sep: char)
    ensures
        join(pieces(s, sep), seq![sep]) == s,
{
    lemma_join_pieces_from(s, sep, 0, Seq::empty(), Seq::empty());
    assert(Seq::<char>::empty() + s.subrange(0, s.len() as int) =~= s);
    assert(Seq::<Seq<char>>::empty().push(s).len() == 1);
}

proof fn lemma_pieces_from_suffix(x: Seq<char>, t: Seq<char>, sep: char, i: int, cur: Seq<char>, acc: Seq<Seq<char>>)
    requires
        0 <= i,
    ensures
        pieces_from(x + t, sep, x.len() + i, cur, acc) == pieces_from(t, sep, i, cur, acc),
    decreases t.len() - i,
{
    if i < t.len() {
        assert((x + t)[x.len() + i] == t[i]);
        lemma_pieces_from_suffix(x, t, sep, i + 1, Seq::empty(), acc.push(cur));
        lemma_pieces_from_suffix(x, t, sep, i + 1, cur.push(t[i]), acc);
    }
}

proof fn lemma_pieces_from_run(s: Seq<char>, sep: char, i: int, j: int, cur: Seq<char>, acc: Seq<Seq<char>>)
    requires
        0 <= i <= j <= s.len(),
        forall|k: int| i <= k < j ==> #[trigger] s[k] != sep,
    ensures
        pieces_from(s, sep, i, cur, acc) == pieces_from(s, sep, j, cur + s.subrange(i, j), acc),
    decreases j - i,
{
    if i == j {
        assert(cur + s.subrange(i, j) =~= cur);
    } else {
        lemma_pieces_from_run(s, sep, i + 1, j, cur.push(s[i]), acc);
        assert(cur.push(s[i]) + s.subrange(i + 1, j) =~= cur + s.subrange(i, j));
    }
}

proof fn lemma_pieces_from_join(parts: Seq<Seq<char>>, sep: char, acc: Seq<Seq<char>>)
    requires
        parts.len() > 0,
        forall|p: int, k: int| 0 <= p < parts.len() && 0 <= k < parts[p].len() ==> #[trigger] parts[p][k] != sep,
    ensures
        pieces_from(join(parts, seq![sep]), sep, 0, Seq::empty(), acc) == acc + parts,
    decreases parts.len(),
{
    let t = join(parts, seq![sep]);
    let p0 = parts[0];
    if parts.len() == 1 {
        assert(t == p0);
        assert forall|k: int| 0 <= k < p0.len() implies #[trigger] t[k] != sep by {
            assert(parts[0][k] != sep);
        }
        lemma_pieces_from_run(t, sep, 0, p0.len() as int, Seq::empty(), acc);
        assert(Seq::<char>::empty() + t.subrange(0, p0.len() as int) =~= p0);
        assert(acc + parts =~= acc.push(p0));
    } else {
        let rest = join(parts.drop_first(), seq![sep]);
        lemma_join_first(parts, seq![sep]);
        let x = p0 + seq![sep];
        assert(t =~= x + rest);
        assert forall|k: int| 0 <= k < p0.len() implies #[trigger] t[k] != sep by {
            assert(t[k] == p0[k]);
            assert(parts[0][k] != sep);
        }
        lemma_pieces_from_run(t, sep, 0, p0.len() as int, Seq::empty(), acc);
        assert(Seq::<char>::empty() + t.subrange(0, p0.len() as int) =~= p0);
        assert(t[p0.len() as int] == sep);
        assert(pieces_from(t, sep, p0.len() as int, p0, acc) == pieces_from(t, sep, p0.len() as int + 1, Seq::empty(), acc.push(p0)));
        lemma_pieces_from_suffix(x, rest, sep, 0, Seq::empty(), acc.push(p0));
        assert forall|p: int, k: int| 0 <= p < parts.drop_first().len() && 0 <= k < parts.drop_first()[p].len() implies #[trigger] parts.drop_first()[p][k] != sep by {
            assert(parts.drop_first()[p] == parts[p + 1]);
        }
        lemma_pieces_from_join(parts.drop_first(), sep, acc.push(p0));
        assert(acc.push(p0) + parts.drop_first() =~= acc + parts);
    }
}

/// Splitting at `sep` parts joined by `sep`, none holding `sep`, gives the parts back.
pub proof fn lemma_pieces_of_join(parts: Seq<Seq<char>>, sep: char)
    requires
        parts.len() > 0,
        forall|p: int, k: int| 0 <= p < parts.len() && 0 <= k < parts[p].len() ==> #[trigger] parts[p][k] != sep,
    ensures
        pieces(join(parts, seq![sep]), sep) == parts,
{
    lemma_pieces_from_join(parts, sep, Seq::empty());
    assert(Seq::<Seq<char>>::empty() + parts =~= parts);
}

/// Splits `s` into lines as `str::lines` does.
pub fn split_lines(s: &[char]) -> (r: Vec<Vec<char>>)
    ensures
        views(r@) == lines_of(s@),
{
    let ps = split_pieces(s, '\n');
    proof {
        lemma_pieces_nonempty(s@, '\n');
    }
    let n = if ps[ps.len() - 1].len() == 0 { ps.len() - 1 } else { ps.len() };
    let ghost kept = if views(ps@).last().len() == 0 { views(ps@).drop_last() } else { views(ps@) };
    assert(kept =~= views(ps@).take(n as int));
    let mut out: Vec<Vec<char>> = Vec::new();
    let mut i: usize = 0;
    while i < n
        invariant
            i <= n <= ps@.len(),
            kept == views(ps@).take(n as int),
            views(out@) == kept.take(i as int).map_values(|l: Seq<char>| if l.len() > 0 && l.last() == '\r' { l.drop_last() } else { l }),
        decreases n - i,
    {
        let line = &ps[i];
        let mut l: Vec<char> = line.clone();
        if l.len() > 0 && l[l.len() - 1] == '\r' {
            l.pop();
        }
        let ghost before = views(out@);
        let ghost lv = l@;
        out.push(l);
        assert(views(out@) =~= before.push(lv));
        assert(kept.take(i + 1) =~= kept.take(i as int).push(kept[i as int]));
        i = i + 1;
    }
    assert(kept.take(n as int) =~= kept);
    out
}

/// The pieces of `s` between non-overlapping occurrences of `pat` (non-empty), scanning from
/// position `i` (what `str::split` with a string pattern yields).
pub open spec fn split_at_from(s: Seq<char>, pat: Seq<char>, i: int, cur: Seq<char>, acc: Seq<Seq<char>>) -> Seq<Seq<char>>
    decreases s.len() - i,
{
    if i >= s.len() || pat.len() == 0 {
        acc.push(cur + s.skip(i))
    } else if occurs_at(s, pat, i) {
        split_at_from(s, pat, i + pat.len(), Seq::empty(), acc.push(cur))
    } else {
        split_at_from(s, pat, i + 1, cur.push(s[i]), acc)
    }
}

proof fn lemma_split_at_from_clean(s: Seq<char>, pat: Seq<char>, i: int, start: int, cur: Seq<char>, acc: Seq<Seq<char>>)
    requires
        pat.len() > 0,
        0 <= start <= i <= s.len(),
        cur == s.subrange(start, i),
        forall|k: int| start <= k < i ==> !occurs_at(s, pat, k),
        forall|p: int| 0 <= p < acc.len() ==> !contains(#[trigger] acc[p], pat),
    ensures
        forall|p: int| 0 <= p < split_at_from(s, pat, i, cur, acc).len() ==> !contains(
            #[trigger] split_at_from(s, pat, i, cur, acc)[p],
            pat,
        ),
    decreases s.len() - i,
{
    if i >= s.len() {
        let piece = cur + s.skip(i);
        assert(piece =~= s.subrange(start, i));
        let na = acc.push(piece);
        assert(split_at_from(s, pat, i, cur, acc) == na);
        assert forall|p: int| 0 <= p < na.len() implies !contains(#[trigger] na[p], pat) by {
            if p < acc.len() {
                assert(na[p] == acc[p]);
            } else {
                if contains(piece, pat) {
                    let k = choose|k: int| occurs_at(piece, pat, k);
                    assert(piece.subrange(k, k + pat.len()) =~= s.subrange(start + k, start + k + pat.len()));
                    assert(occurs_at(s, pat, start + k));
                }
            }
        }
    } else if occurs_at(s, pat, i) {
        let na = acc.push(cur);
        assert forall|p: int| 0 <= p < na.len() implies !contains(#[trigger] na[p], pat) by {
            if p < acc.len() {
                assert(na[p] == acc[p]);
            } else {
                if contains(cur, pat) {
                    let k = choose|k: int| occurs_at(cur, pat, k);
                    assert(cur.subrange(k, k + pat.len()) =~= s.subrange(start + k, start + k + pat.len()));
                    assert(occurs_at(s, pat, start + k));
                }
            }
        }
        assert(Seq::<char>::empty() =~= s.subrange(i + pat.len(), i + pat.len()));
        lemma_split_at_from_clean(s, pat, i + pat.len(), i + pat.len(), Seq::empty(), na);
        assert(split_at_from(s, pat, i, cur, acc) == split_at_from(s, pat, i + pat.len(), Seq::empty(), na));
    } else {
        assert(cur.push(s[i]) =~= s.subrange(start, i + 1));
        lemma_split_at_from_clean(s, pat, i + 1, start, cur.push(s[i]), acc);
        assert(split_at_from(s, pat, i, cur, acc) == split_at_from(s, pat, i + 1, cur.push(s[i]), acc));
    }
}

/// No piece between occurrences of a non-empty pattern holds the pattern.
pub proof fn lemma_split_pieces_clean(s: Seq<char>, pat: Seq<char>)
    requires
        pat.len() > 0,
    ensures
        forall|p: int| 0 <= p < split_at_pattern(s, pat).len() ==> !contains(#[trigger] split_at_pattern(s, pat)[p], pat),
{
    assert(Seq::<char>::empty() =~= s.subrange(0, 0));
    lemma_split_at_from_clean(s, pat, 0, 0, Seq::empty(), Seq::empty());
}

/// A part of a text without a pattern is without it too.
pub proof fn lemma_subrange_clean(s: Seq<char>, pat: Seq<char>, a: int, b: int)
    requires
        0 <= a <= b <= s.len(),
        !contains(s, pat),
    ensures
        !contains(s.subrange(a, b), pat),
{
    let t = s.subrange(a, b);
    if contains(t, pat) {
        let k = choose|k: int| occurs_at(t, pat, k);
        assert(t.subrange(k, k + pat.len()) =~= s.subrange(a + k, a + k + pat.len()));
        assert(occurs_at(s, pat, a + k));
    }
}

/// Trimming, or dropping a leading part of, a text without a pattern leaves it without it.
pub proof fn lemma_trimmed_clean(s: Seq<char>, pat: Seq<char>, n: int)
    requires
        !contains(s, pat),
    ensures
        !contains(trim_start(s), pat),
        !contains(trim_end(s), pat),
        !contains(trim(s), pat),
        0 <= n <= s.len() ==> !contains(s.skip(n), pat),
{
    lemma_leading_ws_bound(s);
    lemma_trailing_ws_bound(s);
    assert(trim_start(s) =~= s.subrange(leading_ws(s) as int, s.len() as int));
    lemma_subrange_clean(s, pat, leading_ws(s) as int, s.len() as int);
    assert(trim_end(s) =~= s.subrange(0, s.len() - trailing_ws(s)));
    lemma_subrange_clean(s, pat, 0, s.len() - trailing_ws(s));
    let t = trim_start(s);
    lemma_trailing_ws_bound(t);
    assert(trim(s) =~= t.subrange(0, t.len() - trailing_ws(t)));
    lemma_subrange_clean(t, pat, 0, t.len() - trailing_ws(t));
    if 0 <= n <= s.len() {
        assert(s.skip(n) =~= s.subrange(n, s.len() as int));
        lemma_subrange_clean(s, pat, n, s.len() as int);
    }
}

/// Two texts without a pattern that holds no line break, joined by a line break, are without
/// it too.
pub proof fn lemma_line_join_clean(x: Seq<char>, y: Seq<char>, pat: Seq<char>)
    requires
        !contains(x, pat),
        !contains(y, pat),
        forall|k: int| 0 <= k < pat.len() ==> #[trigger] pat[k] != '\n',
    ensures
        !contains(x + seq!['\n'] + y, pat),
{
    let t = x + seq!['\n'] + y;
    if contains(t, pat) {
        let k = choose|k: int| occurs_at(t, pat, k);
        let n = pat.len();
        if k + n <= x.len() {
            assert(t.subrange(k, k + n) =~= x.subrange(k, k + n));
            assert(occurs_at(x, pat, k));
        } else if k > x.len() {
            assert(t.subrange(k, k + n) =~= y.subrange(k - x.len() - 1, k - x.len() - 1 + n));
            assert(occurs_at(y, pat, k - x.len() - 1));
        } else {
            assert(t[x.len() as int] == '\n');
            assert(t.subrange(k, k + n)[x.len() - k] == t[x.len() as int]);
            assert(pat[x.len() - k] == '\n');
        }
    }
}

/// The pieces of `s` between non-overlapping occurrences of the non-empty `pat`.
pub open spec fn split_at_pattern(s: Seq<char>, pat: Seq<char>) -> Seq<Seq<char>> {
    split_at_from(s, pat, 0, Seq::empty(), Seq::empty())
}

/// Splits `s` at the non-overlapping occurrences of the non-empty `pat`.
pub fn split_pattern(s: &[char], pat: &[char]) -> (r: Vec<Vec<char>>)
    requires
        pat@.len() > 0,
    ensures
        views(r@) == split_at_pattern(s@, pat@),
{
    let mut acc: Vec<Vec<char>> = Vec::new();
    let mut cur: Vec<char> = Vec::new();
    let mut i: usize = 0;
    assert(views(acc@) =~= Seq::<Seq<char>>::empty());
    assert(cur@ =~= Seq::<char>::empty());
    while i < s.len()
        invariant
            i <= s@.len(),
            pat@.len() > 0,
            split_at_pattern(s@, pat@) == split_at_from(s@, pat@, i as int, cur@, views(acc@)),
        decreases s@.len() - i,
    {
        if occurs_at_exec(s, pat, i) {
            let ghost before = views(acc@);
            let w = cur;
            acc.push(w);
            assert(views(acc@) =~= before.push(w@));
            cur = Vec::new();
            assert(cur@ =~= Seq::<char>::empty());
            i = i + pat.len();
        } else {
            cur.push(s[i]);
            i = i + 1;
        }
    }
    let ghost before = views(acc@);
    assert(cur@ + s@.skip(i as int) =~= cur@);
    let ghost w = cur@;
    acc.push(cur);
    assert(views(acc@) =~= before.push(w));
    acc
}

} // verus!
