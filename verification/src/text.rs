//! Character-level helpers on strings, each with its mathematical model.

use vstd::prelude::*;

verus! {

/// The Unicode `White_Space` property: the characters that `char::is_whitespace` accepts.
pub open spec fn is_white_space(c: char) -> bool {
    let u = c as u32;
    ||| 0x09 <= u <= 0x0d
    ||| u == 0x20
    ||| u == 0x85
    ||| u == 0xa0
    ||| u == 0x1680
    ||| 0x2000 <= u <= 0x200a
    ||| u == 0x2028
    ||| u == 0x2029
    ||| u == 0x202f
    ||| u == 0x205f
    ||| u == 0x3000
}

/// Whether `c` has the Unicode `White_Space` property.
pub fn char_is_whitespace(c: char) -> (r: bool)
    ensures
        r == is_white_space(c),
{
    let u = c as u32;
    (0x09 <= u && u <= 0x0d) || u == 0x20 || u == 0x85 || u == 0xa0 || u == 0x1680 || (0x2000
        <= u && u <= 0x200a) || u == 0x2028 || u == 0x2029 || u == 0x202f || u == 0x205f || u
        == 0x3000
}

/// Calls `String::push`. The contract claims what its documentation says: the
/// string afterwards is the one before with `c` added at its end.
#[verifier::external_body]
pub(crate) fn push_char(s: &mut String, c: char)
    ensures
        final(s)@ == old(s)@.push(c),
{
    s.push(c);
}

/// The characters of `s`, in order.
pub fn chars_of(s: &str) -> (v: Vec<char>)
    ensures
        v@ == s@,
{
    let mut v: Vec<char> = Vec::new();
    for c in it: s.chars()
        invariant
            it.seq() == s@,
            v@ == it.seq().take(it.index() as int),
    {
        v.push(c);
    }
    v
}

} // verus!

verus! {

/// The string holding exactly the characters `chars[from..to]`.
pub fn string_from_chars(chars: &Vec<char>, from: usize, to: usize) -> (s: String)
    requires
        from <= to <= chars.len(),
    ensures
        s@ == chars@.subrange(from as int, to as int),
{
    let mut s = String::new();
    let mut i = from;
    while i < to
        invariant
            from <= i <= to <= chars.len(),
            s@ == chars@.subrange(from as int, i as int),
        decreases to - i,
    {
        push_char(&mut s, chars[i]);
        i = i + 1;
    }
    s
}

/// Whether two strings hold the same characters.
pub fn text_eq(a: &str, b: &str) -> (r: bool)
    ensures
        r == (a@ == b@),
{
    let x: String = a.to_owned();
    let y: String = b.to_owned();
    x == y
}

} // verus!

verus! {

/// `s` split at every occurrence of `sep`: one more piece than there are
/// separators, empty pieces included.
pub open spec fn split_on(s: Seq<char>, sep: char) -> Seq<Seq<char>>
    decreases s.len(),
{
    if s.len() == 0 {
        seq![Seq::empty()]
    } else {
        let pieces = split_on(s.drop_last(), sep);
        if s.last() == sep {
            pieces.push(Seq::empty())
        } else {
            pieces.update(pieces.len() - 1, pieces.last().push(s.last()))
        }
    }
}

/// The pieces joined, with `sep` between each two.
pub open spec fn join_with(pieces: Seq<Seq<char>>, sep: Seq<char>) -> Seq<char>
    decreases pieces.len(),
{
    if pieces.len() == 0 {
        Seq::empty()
    } else if pieces.len() == 1 {
        pieces[0]
    } else {
        join_with(pieces.drop_last(), sep) + sep + pieces.last()
    }
}

/// Splitting never gives an empty list of pieces.
pub proof fn lemma_split_on_nonempty(s: Seq<char>, sep: char)
    ensures
        split_on(s, sep).len() >= 1,
        split_on(s, sep).len() == 1 ==> split_on(s, sep)[0] == s,
    decreases s.len(),
{
    if s.len() > 0 {
        lemma_split_on_nonempty(s.drop_last(), sep);
        if split_on(s, sep).len() == 1 {
            assert(s.drop_last().push(s.last()) == s);
        }
    }
}

/// Joining the pieces of a split with the separator gives the text back.
pub proof fn law_join_split(s: Seq<char>, sep: char)
    ensures
        join_with(split_on(s, sep), seq![sep]) == s,
    decreases s.len(),
{
    if s.len() > 0 {
        let t = s.drop_last();
        law_join_split(t, sep);
        lemma_split_on_nonempty(t, sep);
        let p = split_on(t, sep);
        if s.last() == sep {
            assert(p.push(Seq::<char>::empty()).drop_last() == p);
            assert(s == t + seq![sep] + Seq::<char>::empty());
        } else {
            let q = p.update(p.len() - 1, p.last().push(s.last()));
            if p.len() == 1 {
                assert(q[0] == s);
            } else {
                assert(q.drop_last() == p.drop_last());
                assert(join_with(p, seq![sep]) == join_with(p.drop_last(), seq![sep]) + seq![sep]
                    + p.last());
                assert(s == t.push(s.last()));
                assert(join_with(q, seq![sep]) == join_with(p.drop_last(), seq![sep]) + seq![sep]
                    + p.last().push(s.last()));
            }
        }
    }
}

/// Characters other than the separator, added to a text, extend its last
/// piece.
proof fn lemma_split_on_extend(s: Seq<char>, b: Seq<char>, sep: char)
    requires
        !b.contains(sep),
    ensures
        split_on(s + b, sep) == split_on(s, sep).update(
            split_on(s, sep).len() - 1,
            split_on(s, sep).last() + b,
        ),
    decreases b.len(),
{
    lemma_split_on_nonempty(s, sep);
    let p = split_on(s, sep);
    if b.len() == 0 {
        assert(s + b == s);
        assert(p.last() + b == p.last());
        assert(p.update(p.len() - 1, p.last()) == p);
    } else {
        let c = b.last();
        let b0 = b.drop_last();
        assert(!b0.contains(sep)) by {
            if b0.contains(sep) {
                let i = choose|i: int| 0 <= i < b0.len() && b0[i] == sep;
                assert(b[i] == sep);
            }
        }
        assert(c != sep) by {
            assert(b[b.len() - 1] == c);
        }
        lemma_split_on_extend(s, b0, sep);
        assert((s + b).drop_last() == s + b0);
        assert((s + b).last() == c);
        lemma_split_on_nonempty(s + b0, sep);
        assert(p.last() + b0 + seq![c] == p.last() + b);
        assert(p.last() + b0 + seq![c] == (p.last() + b0).push(c));
    }
}

/// Splitting pieces joined with a separator that none of them holds gives
/// the pieces back.
pub proof fn law_split_join(pieces: Seq<Seq<char>>, sep: char)
    requires
        pieces.len() > 0,
        forall|i: int| 0 <= i < pieces.len() ==> !(#[trigger] pieces[i]).contains(sep),
    ensures
        split_on(join_with(pieces, seq![sep]), sep) == pieces,
    decreases pieces.len(),
{
    if pieces.len() == 1 {
        let w = pieces[0];
        lemma_split_on_extend(Seq::empty(), w, sep);
        assert(Seq::<char>::empty() + w == w);
        assert(split_on(Seq::<char>::empty(), sep) == seq![Seq::<char>::empty()]);
        assert(Seq::<char>::empty() + w == w);
        assert(seq![Seq::<char>::empty()].update(0, w) == pieces);
    } else {
        let t = pieces.drop_last();
        assert forall|i: int| 0 <= i < t.len() implies !(#[trigger] t[i]).contains(sep) by {
            assert(t[i] == pieces[i]);
        }
        law_split_join(t, sep);
        let a = join_with(t, seq![sep]);
        let w = pieces.last();
        assert(!w.contains(sep)) by {
            assert(w == pieces[pieces.len() - 1]);
        }
        assert(join_with(pieces, seq![sep]) == a + seq![sep] + w);
        let a1 = a + seq![sep];
        assert(a1.drop_last() == a && a1.last() == sep);
        assert(split_on(a1, sep) == t.push(Seq::empty()));
        lemma_split_on_extend(a1, w, sep);
        assert(Seq::<char>::empty() + w == w);
        assert(t.push(Seq::empty()).update(t.len() as int, w) == pieces);
    }
}

/// `s` split at every `sep`, as [`split_on`] says.
pub fn split_char(s: &str, sep: char) -> (pieces: Vec<String>)
    ensures
        pieces.deep_view() == split_on(s@, sep),
{
    let chars = chars_of(s);
    let mut pieces: Vec<String> = Vec::new();
    let mut start: usize = 0;
    let mut i: usize = 0;
    assert(pieces.deep_view() == Seq::<Seq<char>>::empty());
    assert(chars@.take(0) == Seq::<char>::empty());
    assert(chars@.subrange(0, 0) == Seq::<char>::empty());
    while i < chars.len()
        invariant
            start <= i <= chars.len(),
            chars@ == s@,
            pieces.deep_view().push(chars@.subrange(start as int, i as int)) == split_on(
                chars@.take(i as int),
                sep,
            ),
        decreases chars.len() - i,
    {
        let ghost t = chars@.take(i + 1);
        assert(t.drop_last() == chars@.take(i as int));
        assert(t.last() == chars@[i as int]);
        if chars[i] == sep {
            let ghost before = pieces.deep_view();
            pieces.push(string_from_chars(&chars, start, i));
            assert(pieces.deep_view() == before.push(chars@.subrange(start as int, i as int)));
            start = i + 1;
            assert(chars@.subrange(start as int, i + 1) == Seq::<char>::empty());
        } else {
            assert(chars@.subrange(start as int, i + 1) == chars@.subrange(
                start as int,
                i as int,
            ).push(chars@[i as int]));
        }
        i = i + 1;
    }
    let ghost before = pieces.deep_view();
    pieces.push(string_from_chars(&chars, start, chars.len()));
    assert(pieces.deep_view() == before.push(chars@.subrange(start as int, chars.len() as int)));
    assert(chars@.take(chars.len() as int) == s@);
    pieces
}

/// The pieces joined with `sep` between each two, as [`join_with`] says.
pub fn join(pieces: &Vec<String>, sep: &str) -> (s: String)
    ensures
        s@ == join_with(pieces.deep_view(), sep@),
{
    let mut s = String::new();
    let mut i: usize = 0;
    while i < pieces.len()
        invariant
            i <= pieces.len(),
            s@ == join_with(pieces.deep_view().take(i as int), sep@),
        decreases pieces.len() - i,
    {
        let ghost p = pieces.deep_view();
        assert(p.take(i + 1).drop_last() == p.take(i as int));
        assert(p.take(i + 1).last() == pieces[i as int]@);
        if i != 0 {
            s.append(sep);
        }
        s.append(pieces[i].as_str());
        i = i + 1;
    }
    assert(pieces.deep_view().take(pieces.len() as int) == pieces.deep_view());
    s
}

} // verus!

verus! {

/// `s` without the whitespace at its end.
pub open spec fn trim_end_of(s: Seq<char>) -> Seq<char>
    decreases s.len(),
{
    if s.len() > 0 && is_white_space(s.last()) {
        trim_end_of(s.drop_last())
    } else {
        s
    }
}

/// `s` without the whitespace at its start.
pub open spec fn trim_start_of(s: Seq<char>) -> Seq<char>
    decreases s.len(),
{
    if s.len() > 0 && is_white_space(s[0]) {
        trim_start_of(s.drop_first())
    } else {
        s
    }
}

/// `s` without the whitespace at either end.
pub open spec fn trim_of(s: Seq<char>) -> Seq<char> {
    trim_end_of(trim_start_of(s))
}

/// Whitespace in front of a text that does not start with whitespace is
/// what trimming the start takes off.
proof fn lemma_trim_start_blank(a: Seq<char>, m: Seq<char>)
    requires
        forall|i: int| 0 <= i < a.len() ==> is_white_space(#[trigger] a[i]),
        m.len() > 0 ==> !is_white_space(m[0]),
    ensures
        trim_start_of(a + m) == m,
    decreases a.len(),
{
    if a.len() > 0 {
        assert((a + m)[0] == a[0]);
        assert((a + m).drop_first() == a.drop_first() + m);
        lemma_trim_start_blank(a.drop_first(), m);
    } else {
        assert(a + m == m);
    }
}

/// Whitespace after a text that does not end with whitespace is what
/// trimming the end takes off.
proof fn lemma_trim_end_blank(m: Seq<char>, b: Seq<char>)
    requires
        forall|i: int| 0 <= i < b.len() ==> is_white_space(#[trigger] b[i]),
        m.len() > 0 ==> !is_white_space(m.last()),
    ensures
        trim_end_of(m + b) == m,
    decreases b.len(),
{
    if b.len() > 0 {
        assert((m + b).last() == b.last());
        assert((m + b).drop_last() == m + b.drop_last());
        lemma_trim_end_blank(m, b.drop_last());
    } else {
        assert(m + b == m);
    }
}

/// Trimming takes off exactly the whitespace at both ends: a text that
/// neither starts nor ends with whitespace comes back from any whitespace
/// around it.
pub proof fn law_trim_takes_surrounding_whitespace(a: Seq<char>, m: Seq<char>, b: Seq<char>)
    requires
        forall|i: int| 0 <= i < a.len() ==> is_white_space(#[trigger] a[i]),
        forall|i: int| 0 <= i < b.len() ==> is_white_space(#[trigger] b[i]),
        m.len() > 0 ==> !is_white_space(m[0]) && !is_white_space(m.last()),
    ensures
        trim_of(a + m + b) == m,
        m.len() > 0 ==> trim_start_of(a + m + b) == m + b,
        m.len() > 0 ==> trim_end_of(a + m + b) == a + m,
{
    if m.len() > 0 {
        assert((m + b)[0] == m[0]);
        lemma_trim_start_blank(a, m + b);
        assert(a + m + b == a + (m + b));
        lemma_trim_end_blank(m, b);
        assert((a + m).last() == m.last());
        lemma_trim_end_blank(a + m, b);
    } else {
        assert(a + m + b == a + b + Seq::<char>::empty());
        assert forall|i: int| 0 <= i < (a + b).len() implies is_white_space(#[trigger] (a + b)[i]) by {
            if i < a.len() {
                assert((a + b)[i] == a[i]);
            } else {
                assert((a + b)[i] == b[i - a.len()]);
            }
        }
        lemma_trim_start_blank(a + b, Seq::empty());
        assert(trim_end_of(Seq::<char>::empty()) == Seq::<char>::empty());
    }
}

/// `s` without the whitespace at its end, as `str::trim_end` gives it.
pub fn trim_end(s: &str) -> (r: String)
    ensures
        r@ == trim_end_of(s@),
{
    let chars = chars_of(s);
    let mut j = chars.len();
    assert(chars@.take(j as int) == chars@);
    while j > 0 && char_is_whitespace(chars[j - 1])
        invariant
            j <= chars.len(),
            chars@ == s@,
            trim_end_of(s@) == trim_end_of(chars@.take(j as int)),
        decreases j,
    {
        assert(chars@.take(j as int).drop_last() == chars@.take(j - 1));
        j = j - 1;
    }
    string_from_chars(&chars, 0, j)
}

/// `s` without the whitespace at either end, as `str::trim` gives it.
pub fn trim(s: &str) -> (r: String)
    ensures
        r@ == trim_of(s@),
{
    let chars = chars_of(s);
    let mut i: usize = 0;
    assert(chars@.skip(0) == chars@);
    while i < chars.len() && char_is_whitespace(chars[i])
        invariant
            i <= chars.len(),
            chars@ == s@,
            trim_start_of(s@) == trim_start_of(chars@.skip(i as int)),
        decreases chars.len() - i,
    {
        assert(chars@.skip(i as int).drop_first() == chars@.skip(i + 1));
        i = i + 1;
    }
    let start = string_from_chars(&chars, i, chars.len());
    assert(start@ == chars@.skip(i as int));
    trim_end(start.as_str())
}

/// Whether `s` begins with `prefix`.
pub open spec fn has_prefix(s: Seq<char>, prefix: Seq<char>) -> bool {
    prefix.len() <= s.len() && s.take(prefix.len() as int) == prefix
}

/// Whether `s` begins with `prefix`, as `str::starts_with` says.
pub fn starts_with(s: &str, prefix: &str) -> (r: bool)
    ensures
        r == has_prefix(s@, prefix@),
{
    let a = chars_of(s);
    let b = chars_of(prefix);
    if b.len() > a.len() {
        return false;
    }
    let mut i: usize = 0;
    while i < b.len()
        invariant
            b.len() <= a.len(),
            i <= b.len(),
            a@ == s@,
            b@ == prefix@,
            forall|k: int| 0 <= k < i ==> a@[k] == b@[k],
        decreases b.len() - i,
    {
        if a[i] != b[i] {
            assert(s@.take(prefix@.len() as int)[i as int] != prefix@[i as int]);
            return false;
        }
        i = i + 1;
    }
    assert(s@.take(prefix@.len() as int) == prefix@);
    true
}

/// Whether `c` occurs in `s`.
pub fn contains_char(s: &str, c: char) -> (r: bool)
    ensures
        r == s@.contains(c),
{
    let chars = chars_of(s);
    let mut i: usize = 0;
    while i < chars.len()
        invariant
            i <= chars.len(),
            chars@ == s@,
            forall|k: int| 0 <= k < i ==> chars@[k] != c,
        decreases chars.len() - i,
    {
        if chars[i] == c {
            assert(s@[i as int] == c);
            return true;
        }
        i = i + 1;
    }
    false
}

/// `s` made at least `width` characters long by spaces at its end, as the
/// format `{:<width}` gives it.
pub open spec fn pad_end(s: Seq<char>, width: nat) -> Seq<char> {
    if s.len() < width {
        s + Seq::new((width - s.len()) as nat, |i: int| ' ')
    } else {
        s
    }
}

/// `s` padded with spaces at its end to `width` characters.
pub fn pad_to_width(s: &str, width: usize) -> (r: String)
    ensures
        r@ == pad_end(s@, width as nat),
{
    let n = chars_of(s).len();
    let mut r = s.to_owned();
    let mut k = n;
    while k < width
        invariant
            n == s@.len(),
            n <= k <= width || (n >= width && k == n),
            r@ == s@ + Seq::new((k - n) as nat, |i: int| ' '),
        decreases width - k,
    {
        let ghost before = r@;
        push_char(&mut r, ' ');
        assert(r@ == s@ + Seq::new((k + 1 - n) as nat, |i: int| ' '));
        k = k + 1;
    }
    assert(s@ + Seq::new(0nat, |i: int| ' ') == s@);
    r
}

/// `s` with every occurrence of `pat`, from the left and not overlapping,
/// replaced by `rep`, as `str::replace` gives it.
pub open spec fn replace_all(s: Seq<char>, pat: Seq<char>, rep: Seq<char>) -> Seq<char>
    decreases s.len(),
{
    if pat.len() == 0 || s.len() < pat.len() {
        s
    } else if s.take(pat.len() as int) == pat {
        rep + replace_all(s.skip(pat.len() as int), pat, rep)
    } else {
        seq![s[0]] + replace_all(s.skip(1), pat, rep)
    }
}

/// `s` with every occurrence of the non-empty `pat` replaced by `rep`.
pub fn replace(s: &str, pat: &str, rep: &str) -> (r: String)
    requires
        pat@.len() > 0,
    ensures
        r@ == replace_all(s@, pat@, rep@),
{
    let a = chars_of(s);
    let p = chars_of(pat);
    let mut r = String::new();
    let mut i: usize = 0;
    assert(a@.skip(0) == a@);
    while i < a.len()
        invariant
            i <= a.len(),
            a@ == s@,
            p@ == pat@,
            p.len() > 0,
            replace_all(s@, pat@, rep@) == r@ + replace_all(a@.skip(i as int), pat@, rep@),
        decreases a.len() - i,
    {
        let ghost rest = a@.skip(i as int);
        if a.len() - i < p.len() {
            assert(replace_all(rest, pat@, rep@) == rest);
            let tail = string_from_chars(&a, i, a.len());
            assert(tail@ == rest);
            r.append(tail.as_str());
            assert(a@.skip(a.len() as int) == Seq::<char>::empty());
            i = a.len();
        } else {
            let mut k: usize = 0;
            while k < p.len() && a[i + k] == p[k]
                invariant
                    k <= p.len(),
                    i + p.len() <= a.len(),
                    forall|j: int| 0 <= j < k ==> a@[i + j] == p@[j],
                decreases p.len() - k,
            {
                k = k + 1;
            }
            if k == p.len() {
                assert(rest.take(pat@.len() as int) == pat@);
                assert(rest.skip(pat@.len() as int) == a@.skip(i + p.len()));
                r.append(rep);
                i = i + p.len();
            } else {
                assert(rest.take(pat@.len() as int)[k as int] != pat@[k as int]);
                assert(rest.skip(1) == a@.skip(i + 1));
                push_char(&mut r, a[i]);
                i = i + 1;
            }
        }
    }
    assert(a@.skip(a.len() as int) == Seq::<char>::empty());
    r
}

} // verus!

verus! {

/// The characters of `s` up to its first whitespace.
pub open spec fn leading_word(s: Seq<char>) -> Seq<char>
    decreases s.len(),
{
    if s.len() == 0 || is_white_space(s[0]) {
        Seq::empty()
    } else {
        seq![s[0]] + leading_word(s.drop_first())
    }
}

/// The first whitespace-separated word of `s`, as `split_whitespace().next()`
/// gives it; empty when `s` is all whitespace.
pub open spec fn first_word(s: Seq<char>) -> Seq<char> {
    leading_word(trim_start_of(s))
}

} // verus!
