//! Characters and character sequences: the vocabulary every address,
//! selector and command is parsed with.

use vstd::prelude::*;

verus! {

/// Whether a character beyond ASCII is alphabetic or numeric in Unicode's
/// sense, as `char::is_alphanumeric` reports it.
pub uninterp spec fn unicode_alphanumeric(c: char) -> bool;

/// The alphanumeric characters of ASCII: the letters `A` to `Z` and `a` to
/// `z`, and the digits.
pub open spec fn ascii_alphanumeric(c: char) -> bool {
    ('a' <= c && c <= 'z') || ('A' <= c && c <= 'Z') || ('0' <= c && c <= '9')
}

/// Whether `c` is alphanumeric: alphabetic or numeric in Unicode's sense.
/// Within ASCII these are the letters and digits; beyond it the
/// classification is Unicode's, which is named and not written out.
pub open spec fn alphanumeric(c: char) -> bool {
    if c <= '\x7f' {
        ascii_alphanumeric(c)
    } else {
        unicode_alphanumeric(c)
    }
}

/// Calls `char::is_alphanumeric`. Trusted: the result is `alphanumeric(c)`,
/// in two clauses. The function is documented to hold of the characters with Unicode's
/// Alphabetic property or in one of its number categories; of the 128 ASCII
/// characters those are the letters and the digits, and that much is claimed
/// here. Of a character beyond ASCII nothing is claimed but that the result
/// depends on the character alone.
#[verifier::external_body]
pub(crate) fn is_unicode_alphanumeric(c: char) -> (r: bool)
    ensures
        c <= '\x7f' ==> r == ascii_alphanumeric(c),
        c > '\x7f' ==> r == unicode_alphanumeric(c),
{
    c.is_alphanumeric()
}

/// Whether `c` may stand in an identifier, given whether it is
/// alphanumeric: it is alphanumeric, `_` or `-`.
pub open spec fn ident_char_given(c: char, alphanumeric: bool) -> bool {
    alphanumeric || c == '_' || c == '-'
}

/// A character that may stand in an identifier: alphanumeric, `_` or `-`.
pub open spec fn ident_char(c: char) -> bool {
    ident_char_given(c, alphanumeric(c))
}

/// A sequence made of identifier characters only. The empty sequence is one.
pub open spec fn is_ident(s: Seq<char>) -> bool {
    forall|i: int| 0 <= i < s.len() ==> ident_char(#[trigger] s[i])
}

/// True when `s` begins with the root marker `//`.
pub open spec fn is_rooted(s: Seq<char>) -> bool {
    s.len() >= 2 && s[0] == '/' && s[1] == '/'
}

/// True when `c` occurs nowhere in `s`.
pub open spec fn lacks(s: Seq<char>, c: char) -> bool {
    forall|i: int| 0 <= i < s.len() ==> #[trigger] s[i] != c
}

/// `i` is the position of the first `c` in `s`.
pub open spec fn is_first(s: Seq<char>, c: char, i: int) -> bool {
    0 <= i < s.len() && s[i] == c && lacks(s.take(i), c)
}

/// `i` is the position of the last `c` in `s`.
pub open spec fn is_last(s: Seq<char>, c: char, i: int) -> bool {
    0 <= i < s.len() && s[i] == c && lacks(s.skip(i + 1), c)
}

/// The position of the first `c` in `s`, if `c` occurs in it.
pub open spec fn first_pos(s: Seq<char>, c: char) -> Option<int> {
    if exists|i: int| is_first(s, c, i) {
        Some(choose|i: int| is_first(s, c, i))
    } else {
        None
    }
}

/// The position of the last `c` in `s`, if `c` occurs in it.
pub open spec fn last_pos(s: Seq<char>, c: char) -> Option<int> {
    if exists|i: int| is_last(s, c, i) {
        Some(choose|i: int| is_last(s, c, i))
    } else {
        None
    }
}

/// A first position is the only one.
pub proof fn lemma_first_pos(s: Seq<char>, c: char, i: int)
    requires
        is_first(s, c, i),
    ensures
        first_pos(s, c) == Some(i),
{
    let j = choose|j: int| is_first(s, c, j);
    if j < i {
        assert(s.take(i)[j] == c);
    } else if i < j {
        assert(s.take(j)[i] == c);
    }
}

/// A last position is the only one.
pub proof fn lemma_last_pos(s: Seq<char>, c: char, i: int)
    requires
        is_last(s, c, i),
    ensures
        last_pos(s, c) == Some(i),
{
    let j = choose|j: int| is_last(s, c, j);
    if j < i {
        assert(s.skip(j + 1)[i - j - 1] == c);
    } else if i < j {
        assert(s.skip(i + 1)[j - i - 1] == c);
    }
}

/// A character that occurs has a first occurrence.
pub proof fn lemma_some_first(s: Seq<char>, c: char)
    requires
        !lacks(s, c),
    ensures
        first_pos(s, c) is Some,
    decreases s.len(),
{
    let i = choose|i: int| 0 <= i < s.len() && s[i] == c;
    if s[0] == c {
        assert(is_first(s, c, 0));
    } else {
        let t = s.skip(1);
        assert(t[i - 1] == c);
        lemma_some_first(t, c);
        let k = choose|k: int| is_first(t, c, k);
        assert forall|j: int| 0 <= j < s.take(k + 1).len() implies #[trigger] s.take(k + 1)[j]
            != c by {
            if j > 0 {
                assert(t.take(k)[j - 1] != c);
            }
        }
        assert(is_first(s, c, k + 1));
    }
}

/// A character that occurs has a last occurrence.
pub proof fn lemma_some_last(s: Seq<char>, c: char)
    requires
        !lacks(s, c),
    ensures
        last_pos(s, c) is Some,
    decreases s.len(),
{
    let i = choose|i: int| 0 <= i < s.len() && s[i] == c;
    if s.last() == c {
        assert(is_last(s, c, s.len() - 1));
    } else {
        let t = s.drop_last();
        assert(t[i] == c);
        lemma_some_last(t, c);
        let k = choose|k: int| is_last(t, c, k);
        assert forall|j: int| 0 <= j < s.skip(k + 1).len() implies #[trigger] s.skip(k + 1)[j]
            != c by {
            if j < t.skip(k + 1).len() {
                assert(t.skip(k + 1)[j] != c);
            }
        }
        assert(is_last(s, c, k));
    }
}

/// Where `c` does not occur there is neither a first nor a last position.
pub proof fn lemma_no_pos(s: Seq<char>, c: char)
    requires
        lacks(s, c),
    ensures
        first_pos(s, c) is None,
        last_pos(s, c) is None,
{
    assert forall|i: int| !is_first(s, c, i) by {}
    assert forall|i: int| !is_last(s, c, i) by {}
}

/// The parts of `s` between the occurrences of `sep`: one more than there are
/// occurrences, empty parts included.
pub open spec fn pieces(s: Seq<char>, sep: char) -> Seq<Seq<char>>
    decreases s.len(),
{
    match first_pos(s, sep) {
        Some(k) => if 0 <= k < s.len() {
            seq![s.take(k)] + pieces(s.skip(k + 1), sep)
        } else {
            seq![s]
        },
        None => seq![s],
    }
}

/// The texts that stand in `v`.
pub open spec fn text_set(v: Seq<String>) -> Set<Seq<char>> {
    Set::new(|t: Seq<char>| exists|i: int| 0 <= i < v.len() && #[trigger] v[i]@ == t)
}

/// The set of the members of `s`.
pub open spec fn members(s: Seq<Seq<char>>) -> Set<Seq<char>> {
    Set::new(|t: Seq<char>| exists|i: int| 0 <= i < s.len() && #[trigger] s[i] == t)
}

/// No text stands twice in `v`.
pub open spec fn distinct_texts(v: Seq<String>) -> bool {
    forall|i: int, j: int| 0 <= i < j < v.len() ==> #[trigger] v[i]@ != #[trigger] v[j]@
}

/// `p` is `prefix` itself or lies below it: `prefix`, then `/`, then more.
pub open spec fn under(prefix: Seq<char>, p: Seq<char>) -> bool {
    p == prefix || (prefix.is_prefix_of(p) && p.len() > prefix.len() && p[prefix.len() as int]
        == '/')
}

/// Whether `c` may stand in an identifier, where `alphanumeric` says
/// whether it is alphanumeric.
pub fn ident_char_of(c: char, alphanumeric: bool) -> (r: bool)
    ensures
        r == ident_char_given(c, alphanumeric),
{
    alphanumeric || c == '_' || c == '-'
}

/// Whether `c` may stand in an identifier.
pub fn is_ident_char(c: char) -> (r: bool)
    ensures
        r == ident_char(c),
{
    ident_char_of(c, is_unicode_alphanumeric(c))
}

/// The characters of `s`, in order.
pub(crate) fn to_chars(s: &str) -> (v: Vec<char>)
    ensures
        v@ == s@,
{
    let mut v: Vec<char> = Vec::new();
    for c in it: s.chars()
        invariant
            v@ == it.seq().take(it.index()),
            it.seq() == s@,
    {
        v.push(c);
    }
    v
}

/// The position of the first `c` in `v`, if there is one.
pub(crate) fn first_index(v: &Vec<char>, c: char) -> (r: Option<usize>)
    ensures
        match r {
            Some(i) => first_pos(v@, c) == Some(i as int) && is_first(v@, c, i as int),
            None => first_pos(v@, c) is None && lacks(v@, c),
        },
{
    let i = first_from(v, c, 0);
    proof {
        if i < v.len() {
            lemma_first_pos(v@, c, i as int);
        } else {
            assert(v@.take(i as int) =~= v@);
            lemma_no_pos(v@, c);
        }
    }
    if i < v.len() {
        Some(i)
    } else {
        None
    }
}

/// The position of the first `c` at or after `from`, or the length of `v`
/// when there is none.
pub(crate) fn first_from(v: &Vec<char>, c: char, from: usize) -> (r: usize)
    requires
        from <= v.len(),
    ensures
        from <= r <= v.len(),
        lacks(v@.subrange(from as int, r as int), c),
        r < v.len() ==> v[r as int] == c,
{
    let mut i: usize = from;
    while i < v.len() && v[i] != c
        invariant
            from <= i <= v.len(),
            lacks(v@.subrange(from as int, i as int), c),
        decreases v.len() - i,
    {
        i += 1;
        assert forall|j: int| 0 <= j < i - from implies #[trigger] v@.subrange(
            from as int,
            i as int,
        )[j] != c by {}
    }
    i
}

/// The position of the last `c` in `v`, if there is one.
pub(crate) fn last_index(v: &Vec<char>, c: char) -> (r: Option<usize>)
    ensures
        match r {
            Some(i) => last_pos(v@, c) == Some(i as int) && is_last(v@, c, i as int),
            None => last_pos(v@, c) is None && lacks(v@, c),
        },
{
    let mut i: usize = v.len();
    while i > 0
        invariant
            i <= v.len(),
            lacks(v@.skip(i as int), c),
        decreases i,
    {
        i -= 1;
        if v[i] == c {
            proof {
                lemma_last_pos(v@, c, i as int);
            }
            return Some(i);
        }
        assert forall|j: int| 0 <= j < v.len() - i implies #[trigger] v@.skip(i as int)[j]
            != c by {
            if j > 0 {
                assert(v@.skip(i + 1)[j - 1] != c);
            }
        }
    }
    proof {
        assert(v@.skip(0) =~= v@);
        lemma_no_pos(v@, c);
    }
    None
}

/// Whether the characters of `v` from `from` up to `to` are all identifier
/// characters.
pub(crate) fn ident_between(v: &Vec<char>, from: usize, to: usize) -> (r: bool)
    requires
        from <= to <= v.len(),
    ensures
        r == is_ident(v@.subrange(from as int, to as int)),
{
    let mut i: usize = from;
    while i < to
        invariant
            from <= i <= to <= v.len(),
            is_ident(v@.subrange(from as int, i as int)),
        decreases to - i,
    {
        if !is_ident_char(v[i]) {
            assert(v@.subrange(from as int, to as int)[i - from] == v[i as int]);
            return false;
        }
        i += 1;
        assert forall|j: int| 0 <= j < i - from implies ident_char(
            #[trigger] v@.subrange(from as int, i as int)[j],
        ) by {}
    }
    true
}

/// Whether the characters of `v` from `from` up to `to` spell `word`.
pub(crate) fn spells(v: &Vec<char>, from: usize, to: usize, word: &str) -> (r: bool)
    requires
        from <= to <= v.len(),
    ensures
        r == (v@.subrange(from as int, to as int) == word@),
{
    let w = to_chars(word);
    if w.len() != to - from {
        return false;
    }
    let mut i: usize = 0;
    while i < w.len()
        invariant
            from <= to <= v.len(),
            w.len() == to - from,
            w@ == word@,
            i <= w.len(),
            forall|j: int| 0 <= j < i ==> v[from + j] == w[j],
        decreases w.len() - i,
    {
        if v[from + i] != w[i] {
            return false;
        }
        i += 1;
    }
    assert(v@.subrange(from as int, to as int) =~= w@);
    true
}

/// Whether `v` begins with `p`.
pub(crate) fn has_prefix(v: &Vec<char>, p: &Vec<char>) -> (r: bool)
    ensures
        r == p@.is_prefix_of(v@),
{
    if p.len() > v.len() {
        return false;
    }
    let mut i: usize = 0;
    while i < p.len()
        invariant
            i <= p.len() <= v.len(),
            forall|j: int| 0 <= j < i ==> v[j] == p[j],
        decreases p.len() - i,
    {
        if v[i] != p[i] {
            return false;
        }
        i += 1;
    }
    true
}

/// Whether `p` is `prefix` or lies below it.
pub(crate) fn is_under(prefix: &Vec<char>, p: &Vec<char>) -> (r: bool)
    ensures
        r == under(prefix@, p@),
{
    if !has_prefix(p, prefix) {
        assert(p@ != prefix@);
        return false;
    }
    if p.len() == prefix.len() {
        assert(p@ =~= p@.subrange(0, prefix.len() as int));
        return true;
    }
    p[prefix.len()] == '/'
}

/// Whether the text `t` stands in `v`.
pub(crate) fn has_text(v: &Vec<String>, t: &String) -> (r: bool)
    ensures
        r == text_set(v@).contains(t@),
{
    let mut i: usize = 0;
    while i < v.len()
        invariant
            i <= v.len(),
            forall|j: int| 0 <= j < i ==> (#[trigger] v[j])@ != t@,
        decreases v.len() - i,
    {
        if v[i] == *t {
            return true;
        }
        i += 1;
    }
    false
}

/// One more text in a sequence is one more member of its set.
pub proof fn lemma_text_set_push(v: Seq<String>, t: String)
    ensures
        text_set(v.push(t)) == text_set(v).insert(t@),
{
    let w = v.push(t);
    assert forall|x: Seq<char>| text_set(w).contains(x) <==> text_set(v).insert(t@).contains(
        x,
    ) by {
        if text_set(w).contains(x) {
            let i = choose|i: int| 0 <= i < w.len() && #[trigger] w[i]@ == x;
        }
        if text_set(v).insert(t@).contains(x) {
            if x == t@ {
                assert(w[v.len() as int]@ == x);
            } else {
                let i = choose|i: int| 0 <= i < v.len() && #[trigger] v[i]@ == x;
                assert(w[i]@ == x);
            }
        }
    }
}

/// The members of a sequence with one more in front.
pub proof fn lemma_members_cons(head: Seq<char>, tail: Seq<Seq<char>>)
    ensures
        members(seq![head] + tail) == members(tail).insert(head),
        members(seq![head]) == Set::<Seq<char>>::empty().insert(head),
{
    let w = seq![head] + tail;
    assert forall|x: Seq<char>| members(w).contains(x) <==> members(tail).insert(head).contains(
        x,
    ) by {
        if members(w).contains(x) {
            let i = choose|i: int| 0 <= i < w.len() && #[trigger] w[i] == x;
        }
        if members(tail).insert(head).contains(x) {
            if x == head {
                assert(w[0] == x);
            } else {
                let i = choose|i: int| 0 <= i < tail.len() && #[trigger] tail[i] == x;
                assert(w[i + 1] == x);
            }
        }
    }
    let one = seq![head];
    assert forall|x: Seq<char>| members(one).contains(x) <==> x == head by {
        if x == head {
            assert(one[0] == x);
        }
    }
}

} // verus!
