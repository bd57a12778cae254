//! Text as a sequence of characters: trimming, splitting, ASCII case and searching.

use vstd::prelude::*;
use vstd::slice::slice_subrange;

verus! {

/// `String::push` appends one character.
pub assume_specification[ String::push ](text: &mut String, c: char)
    ensures
        final(text)@ == old(text)@.push(c),
;

/// The characters with the Unicode property `White_Space`.
pub open spec fn is_white(c: char) -> bool {
    let n = c as u32;
    ||| 0x9 <= n <= 0xd
    ||| n == 0x20
    ||| n == 0x85
    ||| n == 0xa0
    ||| n == 0x1680
    ||| 0x2000 <= n <= 0x200a
    ||| n == 0x2028
    ||| n == 0x2029
    ||| n == 0x202f
    ||| n == 0x205f
    ||| n == 0x3000
}

/// `A` to `Z` become `a` to `z`; every other character stays.
pub open spec fn lower(c: char) -> char {
    if 'A' <= c <= 'Z' {
        (c as u8 + 32) as u8 as char
    } else {
        c
    }
}

/// `lower` on every character.
pub open spec fn lower_all(s: Seq<char>) -> Seq<char> {
    Seq::new(s.len(), |i: int| lower(s[i]))
}

/// `s` without the white characters at its front.
pub open spec fn trim_start(s: Seq<char>) -> Seq<char>
    decreases s.len(),
{
    if s.len() > 0 && is_white(s.first()) {
        trim_start(s.drop_first())
    } else {
        s
    }
}

/// `s` without the white characters at its back.
pub open spec fn trim_end(s: Seq<char>) -> Seq<char>
    decreases s.len(),
{
    if s.len() > 0 && is_white(s.last()) {
        trim_end(s.drop_last())
    } else {
        s
    }
}

/// `s` without the white characters at its two ends.
pub open spec fn trimmed(s: Seq<char>) -> Seq<char> {
    trim_end(trim_start(s))
}

/// The position of the first character of `s` that is in `stops`, or the length of `s`.
pub open spec fn find_any(s: Seq<char>, stops: Seq<char>) -> int
    decreases s.len(),
{
    if s.len() == 0 || stops.contains(s.first()) {
        0
    } else {
        1 + find_any(s.drop_first(), stops)
    }
}

/// The pieces of `s` between the occurrences of `sep`.
pub open spec fn split(s: Seq<char>, sep: char) -> Seq<Seq<char>>
    decreases s.len(),
{
    let k = find_any(s, seq![sep]);
    if 0 <= k < s.len() {
        seq![s.take(k)] + split(s.skip(k + 1), sep)
    } else {
        seq![s]
    }
}

/// The pieces of `s` between its white characters, without the empty ones.
pub open spec fn words(s: Seq<char>) -> Seq<Seq<char>>
    decreases s.len(),
{
    if s.len() == 0 {
        seq![]
    } else if is_white(s.first()) {
        words(s.drop_first())
    } else {
        let k = word_len(s);
        if 0 < k <= s.len() {
            seq![s.take(k)] + words(s.skip(k))
        } else {
            seq![]
        }
    }
}

/// How many characters stand before the first white one.
pub open spec fn word_len(s: Seq<char>) -> int
    decreases s.len(),
{
    if s.len() == 0 || is_white(s.first()) {
        0
    } else {
        1 + word_len(s.drop_first())
    }
}

/// `part` stands somewhere in `s`.
pub open spec fn occurs(part: Seq<char>, s: Seq<char>) -> bool {
    exists|i: int| occurs_at(part, s, i)
}

/// `part` stands in `s` at position `i`.
pub open spec fn occurs_at(part: Seq<char>, s: Seq<char>, i: int) -> bool {
    0 <= i && i + part.len() <= s.len() && s.subrange(i, i + part.len()) == part
}

/// The text that an optional string slice holds.
pub open spec fn text_of(o: Option<&str>) -> Option<Seq<char>> {
    match o {
        Some(t) => Some(t@),
        None => None,
    }
}

/// The text that an optional string holds.
pub open spec fn owned_text(o: Option<String>) -> Option<Seq<char>> {
    match o {
        Some(t) => Some(t@),
        None => None,
    }
}

/// What the position of `find_any` is.
pub proof fn lemma_find_any(s: Seq<char>, stops: Seq<char>)
    ensures
        0 <= find_any(s, stops) <= s.len(),
        forall|i: int| 0 <= i < find_any(s, stops) ==> !stops.contains(#[trigger] s[i]),
        find_any(s, stops) < s.len() ==> stops.contains(s[find_any(s, stops)]),
    decreases s.len(),
{
    if s.len() > 0 && !stops.contains(s.first()) {
        lemma_find_any(s.drop_first(), stops);
        let k = find_any(s.drop_first(), stops);
        assert forall|i: int| 0 <= i < 1 + k implies !stops.contains(#[trigger] s[i]) by {
            if i > 0 {
                assert(s[i] == s.drop_first()[i - 1]);
            }
        }
    }
}

/// The position found is the only one with nothing to find before it.
pub proof fn lemma_find_any_unique(s: Seq<char>, stops: Seq<char>, k: int)
    requires
        0 <= k <= s.len(),
        forall|i: int| 0 <= i < k ==> !stops.contains(#[trigger] s[i]),
        k < s.len() ==> stops.contains(s[k]),
    ensures
        find_any(s, stops) == k,
{
    lemma_find_any(s, stops);
    let m = find_any(s, stops);
    if m < k {
        assert(!stops.contains(s[m]));
    }
    if k < m {
        assert(!stops.contains(s[k]));
    }
}

proof fn lemma_word_len(s: Seq<char>)
    ensures
        0 <= word_len(s) <= s.len(),
        forall|i: int| 0 <= i < word_len(s) ==> !is_white(#[trigger] s[i]),
        word_len(s) < s.len() ==> is_white(s[word_len(s)]),
    decreases s.len(),
{
    if s.len() > 0 && !is_white(s.first()) {
        lemma_word_len(s.drop_first());
        let k = word_len(s.drop_first());
        assert forall|i: int| 0 <= i < 1 + k implies !is_white(#[trigger] s[i]) by {
            if i > 0 {
                assert(s[i] == s.drop_first()[i - 1]);
            }
        }
    }
}

proof fn lemma_word_len_unique(s: Seq<char>, k: int)
    requires
        0 <= k <= s.len(),
        forall|i: int| 0 <= i < k ==> !is_white(#[trigger] s[i]),
        k < s.len() ==> is_white(s[k]),
    ensures
        word_len(s) == k,
{
    lemma_word_len(s);
    let m = word_len(s);
    if m < k {
        assert(!is_white(s[m]));
    }
    if k < m {
        assert(!is_white(s[k]));
    }
}

// ---- Laws ----

/// The text of an optional string is the whole string, and there is one exactly where there is a
/// string.
pub proof fn law_optional_texts(slice: &str, string: String)
    ensures
        text_of(Some(slice)) == Some(slice@),
        text_of(None) is None,
        owned_text(Some(string)) == Some(string@),
        owned_text(None) is None,
{
}

/// The white characters are these: the tab, the line feed and the three controls behind it, the
/// space, the next line, and the spaces and separators of Unicode.
pub proof fn law_white_characters(c: char)
    ensures
        is_white(c) <==> seq![
            '\t',
            '\n',
            '\u{b}',
            '\u{c}',
            '\r',
            ' ',
            '\u{85}',
            '\u{a0}',
            '\u{1680}',
            '\u{2000}',
            '\u{2001}',
            '\u{2002}',
            '\u{2003}',
            '\u{2004}',
            '\u{2005}',
            '\u{2006}',
            '\u{2007}',
            '\u{2008}',
            '\u{2009}',
            '\u{200a}',
            '\u{2028}',
            '\u{2029}',
            '\u{202f}',
            '\u{205f}',
            '\u{3000}',
        ].contains(c),
{
    let all = seq![
        '\t',
        '\n',
        '\u{b}',
        '\u{c}',
        '\r',
        ' ',
        '\u{85}',
        '\u{a0}',
        '\u{1680}',
        '\u{2000}',
        '\u{2001}',
        '\u{2002}',
        '\u{2003}',
        '\u{2004}',
        '\u{2005}',
        '\u{2006}',
        '\u{2007}',
        '\u{2008}',
        '\u{2009}',
        '\u{200a}',
        '\u{2028}',
        '\u{2029}',
        '\u{202f}',
        '\u{205f}',
        '\u{3000}',
    ];
    if is_white(c) {
        let n = c as int;
        let i: int = if n <= 0xd {
            n - 9
        } else if n == 0x20 {
            5
        } else if n == 0x85 {
            6
        } else if n == 0xa0 {
            7
        } else if n == 0x1680 {
            8
        } else if n <= 0x200a {
            n - 0x2000 + 9
        } else if n == 0x2028 {
            20
        } else if n == 0x2029 {
            21
        } else if n == 0x202f {
            22
        } else if n == 0x205f {
            23
        } else {
            24
        };
        assert(all[i] == c);
    }
}

/// The letters of the Latin alphabet become their small forms and no other character changes, at
/// every place of a text of any length.
pub proof fn law_lower_case(s: Seq<char>, i: int)
    requires
        0 <= i < s.len(),
    ensures
        lower_all(s).len() == s.len(),
        forall|k: int|
            0 <= k < 26 && s[i] == #[trigger] "ABCDEFGHIJKLMNOPQRSTUVWXYZ"@[k] ==> lower_all(s)[i]
                == "abcdefghijklmnopqrstuvwxyz"@[k],
        !"ABCDEFGHIJKLMNOPQRSTUVWXYZ"@.contains(s[i]) ==> lower_all(s)[i] == s[i],
{
    reveal_strlit("ABCDEFGHIJKLMNOPQRSTUVWXYZ");
    reveal_strlit("abcdefghijklmnopqrstuvwxyz");
    let upper = "ABCDEFGHIJKLMNOPQRSTUVWXYZ"@;
    let small = "abcdefghijklmnopqrstuvwxyz"@;
    assert forall|k: int| 0 <= k < 26 implies #[trigger] upper[k] as int == 65 + k && small[k] as int
        == 97 + k by {}
    if 'A' <= s[i] <= 'Z' {
        assert(upper[s[i] as int - 65] == s[i]);
    }
}

/// Trimming takes white characters from the two ends, all of them, and nothing else.
pub proof fn law_trimmed(s: Seq<char>)
    ensures
        exists|a: int, b: int|
            {
                &&& 0 <= a <= b <= s.len()
                &&& trimmed(s) == #[trigger] s.subrange(a, b)
                &&& forall|i: int| 0 <= i < a || b <= i < s.len() ==> is_white(#[trigger] s[i])
                &&& a < b ==> !is_white(s[a]) && !is_white(s[b - 1])
            },
{
    let t = trim_start(s);
    lemma_trim_start(s);
    lemma_trim_end(t);
    let a = s.len() - t.len();
    let b = a + trim_end(t).len();
    assert(s.subrange(a, b) == trim_end(t));
    assert forall|i: int| 0 <= i < a || b <= i < s.len() implies is_white(#[trigger] s[i]) by {
        if b <= i {
            assert(t[i - a] == s[i]);
        }
    }
    if a < b {
        assert(s[a] == t[0]);
        assert(s[b - 1] == t[b - a - 1]);
    }
}

proof fn lemma_trim_start(s: Seq<char>)
    ensures
        trim_start(s).len() <= s.len(),
        trim_start(s) == s.skip(s.len() - trim_start(s).len()),
        forall|i: int|
            0 <= i < s.len() - trim_start(s).len() ==> is_white(#[trigger] s[i]),
        trim_start(s).len() > 0 ==> !is_white(trim_start(s)[0]),
    decreases s.len(),
{
    if s.len() > 0 && is_white(s.first()) {
        let rest = s.drop_first();
        lemma_trim_start(rest);
        let n = s.len() - trim_start(s).len();
        assert(rest.skip(n - 1) == s.skip(n));
        assert forall|i: int| 0 <= i < n implies is_white(#[trigger] s[i]) by {
            if i > 0 {
                assert(s[i] == rest[i - 1]);
            }
        }
    } else {
        assert(s.skip(0) == s);
    }
}

proof fn lemma_trim_end(s: Seq<char>)
    ensures
        trim_end(s).len() <= s.len(),
        trim_end(s) == s.take(trim_end(s).len() as int),
        forall|i: int| trim_end(s).len() <= i < s.len() ==> is_white(#[trigger] s[i]),
        trim_end(s).len() > 0 ==> !is_white(trim_end(s).last()),
    decreases s.len(),
{
    if s.len() > 0 && is_white(s.last()) {
        let rest = s.drop_last();
        lemma_trim_end(rest);
        let n = trim_end(s).len() as int;
        assert(rest.take(n) == s.take(n));
        assert forall|i: int| n <= i < s.len() implies is_white(#[trigger] s[i]) by {
            if i < rest.len() {
                assert(s[i] == rest[i]);
            }
        }
    } else {
        assert(s.take(s.len() as int) == s);
    }
}

/// A text between white characters is what trimming leaves.
pub proof fn law_trimmed_is(a: Seq<char>, s: Seq<char>, b: Seq<char>)
    requires
        forall|i: int| 0 <= i < a.len() ==> is_white(#[trigger] a[i]),
        forall|i: int| 0 <= i < b.len() ==> is_white(#[trigger] b[i]),
        s.len() > 0 ==> !is_white(s.first()) && !is_white(s.last()),
    ensures
        trimmed(a + s + b) == s,
{
    let all = a + s + b;
    law_trimmed(all);
    let (x, y) = choose|x: int, y: int|
        {
            &&& 0 <= x <= y <= all.len()
            &&& trimmed(all) == #[trigger] all.subrange(x, y)
            &&& forall|i: int| 0 <= i < x || y <= i < all.len() ==> is_white(#[trigger] all[i])
            &&& x < y ==> !is_white(all[x]) && !is_white(all[y - 1])
        };
    let p = a.len() as int;
    let q = p + s.len();
    assert forall|i: int| 0 <= i < p || q <= i < all.len() implies is_white(#[trigger] all[i]) by {
        if i < p {
            assert(all[i] == a[i]);
        } else {
            assert(all[i] == b[i - q]);
        }
    }
    if s.len() > 0 {
        assert(all[p] == s.first());
        assert(all[q - 1] == s.last());
        assert(x <= p);
        assert(q - 1 < y);
        assert(x == p && y == q);
    } else {
        assert(x == y);
    }
    assert(all.subrange(x, y) == s);
}

/// White characters around a text make no difference to what trimming leaves of it.
pub proof fn law_trimmed_ignores_white(a: Seq<char>, s: Seq<char>, b: Seq<char>)
    requires
        forall|i: int| 0 <= i < a.len() ==> is_white(#[trigger] a[i]),
        forall|i: int| 0 <= i < b.len() ==> is_white(#[trigger] b[i]),
    ensures
        trimmed(a + s + b) == trimmed(s),
{
    law_trimmed(s);
    let (x, y) = choose|x: int, y: int|
        {
            &&& 0 <= x <= y <= s.len()
            &&& trimmed(s) == #[trigger] s.subrange(x, y)
            &&& forall|i: int| 0 <= i < x || y <= i < s.len() ==> is_white(#[trigger] s[i])
            &&& x < y ==> !is_white(s[x]) && !is_white(s[y - 1])
        };
    let front = a + s.take(x);
    let back = s.skip(y) + b;
    assert(a + s + b == front + s.subrange(x, y) + back);
    assert forall|i: int| 0 <= i < front.len() implies is_white(#[trigger] front[i]) by {
        if i >= a.len() {
            assert(front[i] == s[i - a.len()]);
        }
    }
    assert forall|i: int| 0 <= i < back.len() implies is_white(#[trigger] back[i]) by {
        if i < s.len() - y {
            assert(back[i] == s[y + i]);
        } else {
            assert(back[i] == b[i - (s.len() - y)]);
        }
    }
    law_trimmed_is(front, s.subrange(x, y), back);
}

/// The pieces one after the other, with `sep` between them.
pub open spec fn joined(pieces: Seq<Seq<char>>, sep: char) -> Seq<char>
    decreases pieces.len(),
{
    if pieces.len() == 0 {
        seq![]
    } else if pieces.len() == 1 {
        pieces[0]
    } else {
        pieces[0] + seq![sep] + joined(pieces.drop_first(), sep)
    }
}

/// The pieces of a text give it back with the separator between them, and hold none themselves.
pub proof fn law_split(s: Seq<char>, sep: char)
    ensures
        split(s, sep).len() > 0,
        joined(split(s, sep), sep) == s,
        forall|j: int| 0 <= j < split(s, sep).len() ==> !(#[trigger] split(s, sep)[j]).contains(sep),
    decreases s.len(),
{
    let pieces = split(s, sep);
    let k = find_any(s, seq![sep]);
    lemma_find_any(s, seq![sep]);
    assert(seq![sep][0] == sep);
    let head = s.take(k);
    assert(!head.contains(sep)) by {
        if head.contains(sep) {
            let i = choose|i: int| 0 <= i < head.len() && head[i] == sep;
            assert(!seq![sep].contains(s[i]));
        }
    }
    if k < s.len() {
        let rest = s.skip(k + 1);
        law_split(rest, sep);
        assert(pieces.drop_first() == split(rest, sep));
        assert(s[k] == sep);
        assert(head + seq![sep] + rest == s);
        assert forall|j: int| 0 <= j < pieces.len() implies !(#[trigger] pieces[j]).contains(sep) by {
            if j > 0 {
                assert(pieces[j] == split(rest, sep)[j - 1]);
            }
        }
    } else {
        assert(head == s);
    }
}

/// Pieces without the separator are what the text that they make is split into.
pub proof fn law_split_is(pieces: Seq<Seq<char>>, sep: char)
    requires
        pieces.len() > 0,
        forall|j: int| 0 <= j < pieces.len() ==> !(#[trigger] pieces[j]).contains(sep),
    ensures
        split(joined(pieces, sep), sep) == pieces,
    decreases pieces.len(),
{
    let s = joined(pieces, sep);
    let x = pieces[0];
    let k = x.len() as int;
    assert(seq![sep][0] == sep);
    assert forall|i: int| 0 <= i < k implies !seq![sep].contains(#[trigger] s[i]) by {
        assert(s[i] == x[i]);
        assert(x.contains(x[i]));
    }
    if pieces.len() == 1 {
        lemma_find_any_unique(s, seq![sep], k);
        assert(pieces == seq![x]);
    } else {
        let rest = pieces.drop_first();
        assert forall|j: int| 0 <= j < rest.len() implies !(#[trigger] rest[j]).contains(sep) by {
            assert(rest[j] == pieces[j + 1]);
        }
        law_split_is(rest, sep);
        assert(s[k] == sep);
        lemma_find_any_unique(s, seq![sep], k);
        assert(s.take(k) == x);
        assert(s.skip(k + 1) == joined(rest, sep));
        assert(seq![x] + rest == pieces);
    }
}

/// A separator parts the pieces before it from those behind it.
pub proof fn law_pieces_are_parted(a: Seq<char>, sep: char, b: Seq<char>)
    ensures
        split(a + seq![sep] + b, sep) == split(a, sep) + split(b, sep),
    decreases a.len(),
{
    let s = a + seq![sep] + b;
    let stop = seq![sep];
    assert(stop[0] == sep);
    let k = find_any(a, stop);
    lemma_find_any(a, stop);
    assert forall|i: int| 0 <= i < k implies !stop.contains(#[trigger] s[i]) by {
        assert(s[i] == a[i]);
    }
    if k < a.len() {
        assert(s[k] == a[k]);
        lemma_find_any_unique(s, stop, k);
        assert(s.take(k) == a.take(k));
        assert(s.skip(k + 1) == a.skip(k + 1) + seq![sep] + b);
        law_pieces_are_parted(a.skip(k + 1), sep, b);
        assert(seq![a.take(k)] + (split(a.skip(k + 1), sep) + split(b, sep)) == seq![a.take(k)]
            + split(a.skip(k + 1), sep) + split(b, sep));
    } else {
        assert(s[k] == sep);
        lemma_find_any_unique(s, stop, k);
        assert(s.take(k) == a);
        assert(s.skip(k + 1) == b);
    }
}

/// A text without white characters is one word, and none where it is empty.
pub proof fn law_one_word(s: Seq<char>)
    requires
        forall|i: int| 0 <= i < s.len() ==> !is_white(#[trigger] s[i]),
    ensures
        words(s) == (if s.len() == 0 {
            Seq::<Seq<char>>::empty()
        } else {
            seq![s]
        }),
{
    lemma_word_len_unique(s, s.len() as int);
    if s.len() > 0 {
        assert(!is_white(s[0]));
        assert(s.take(s.len() as int) == s);
        assert(s.skip(s.len() as int) == Seq::<char>::empty());
        assert(words(Seq::<char>::empty()) == Seq::<Seq<char>>::empty());
    }
}

/// A white character parts the words before it from those behind it.
pub proof fn law_words_are_parted(a: Seq<char>, w: char, b: Seq<char>)
    requires
        is_white(w),
    ensures
        words(a + seq![w] + b) == words(a) + words(b),
    decreases a.len(),
{
    let s = a + seq![w] + b;
    if a.len() == 0 {
        assert(s.first() == w);
        assert(s.drop_first() == b);
        assert(words(a) + words(b) == words(b));
    } else if is_white(a.first()) {
        assert(s.first() == a.first());
        assert(s.drop_first() == a.drop_first() + seq![w] + b);
        law_words_are_parted(a.drop_first(), w, b);
    } else {
        let k = word_len(a);
        lemma_word_len(a);
        assert(k > 0) by {
            lemma_word_len(a.drop_first());
        }
        assert forall|i: int| 0 <= i < k implies !is_white(#[trigger] s[i]) by {
            assert(s[i] == a[i]);
        }
        if k < a.len() {
            assert(s[k] == a[k]);
        } else {
            assert(s[k] == w);
        }
        lemma_word_len_unique(s, k);
        assert(s.first() == a.first());
        assert(s.take(k) == a.take(k));
        assert(s.skip(k) == a.skip(k) + seq![w] + b);
        law_words_are_parted(a.skip(k), w, b);
        assert(seq![a.take(k)] + (words(a.skip(k)) + words(b)) == seq![a.take(k)] + words(a.skip(k))
            + words(b));
    }
}

/// A part stands in a text exactly where the text is something, the part and something.
pub proof fn law_occurs(part: Seq<char>, s: Seq<char>)
    ensures
        occurs(part, s) <==> exists|a: Seq<char>, b: Seq<char>| s == #[trigger] (a + part + b),
{
    if occurs(part, s) {
        let i = choose|i: int| occurs_at(part, s, i);
        let a = s.take(i);
        let b = s.skip(i + part.len());
        assert(s == a + part + b);
    }
    if exists|a: Seq<char>, b: Seq<char>| s == #[trigger] (a + part + b) {
        let (a, b) = choose|a: Seq<char>, b: Seq<char>| s == #[trigger] (a + part + b);
        assert(s.subrange(a.len() as int, a.len() + part.len() as int) == part);
        assert(occurs_at(part, s, a.len() as int));
    }
}

/// The position is that of the first stop: what stands before it holds none, and it is one itself
/// unless it is the end.
pub proof fn law_find_any(front: Seq<char>, back: Seq<char>, stops: Seq<char>)
    requires
        forall|i: int| 0 <= i < front.len() ==> !stops.contains(#[trigger] front[i]),
        back.len() > 0 ==> stops.contains(back.first()),
    ensures
        find_any(front + back, stops) == front.len(),
{
    let s = front + back;
    assert forall|i: int| 0 <= i < front.len() implies !stops.contains(#[trigger] s[i]) by {
        assert(s[i] == front[i]);
    }
    lemma_find_any_unique(s, stops, front.len() as int);
}

/// The characters of a string.
pub fn chars_of(text: &str) -> (r: Vec<char>)
    ensures
        r@ == text@,
{
    let mut out: Vec<char> = Vec::new();
    for c in it: text.chars()
        invariant
            it.seq() == text@,
            out@ == text@.take(it.index() as int),
    {
        out.push(c);
        assert(out@ == text@.take(it.index() as int + 1));
    }
    assert(text@.take(text@.len() as int) == text@);
    out
}

/// The string with these characters.
pub fn string_of(chars: &[char]) -> (r: String)
    ensures
        r@ == chars@,
{
    let mut out = String::new();
    let mut i: usize = 0;
    while i < chars.len()
        invariant
            i <= chars@.len(),
            out@ == chars@.take(i as int),
        decreases chars@.len() - i,
    {
        out.push(chars[i]);
        assert(out@ == chars@.take(i as int + 1));
        i = i + 1;
    }
    assert(chars@.take(i as int) == chars@);
    out
}

/// A copy of a string slice.
pub fn copy_of(text: &str) -> (r: String)
    ensures
        r@ == text@,
{
    let mut out = String::new();
    out.append(text);
    assert(out@ == text@);
    out
}

/// Whether the character has the Unicode property `White_Space`.
pub fn white(c: char) -> (r: bool)
    ensures
        r == is_white(c),
{
    let n: u32 = c as u32;
    (0x9 <= n && n <= 0xd) || n == 0x20 || n == 0x85 || n == 0xa0 || n == 0x1680 || (0x2000 <= n
        && n <= 0x200a) || n == 0x2028 || n == 0x2029 || n == 0x202f || n == 0x205f || n == 0x3000
}

/// The character with `A` to `Z` as `a` to `z`.
pub fn to_lower(c: char) -> (r: char)
    ensures
        r == lower(c),
{
    if 'A' <= c && c <= 'Z' {
        (c as u8 + 32) as char
    } else {
        c
    }
}

/// The characters with `A` to `Z` as `a` to `z`.
pub fn to_lower_all(chars: &[char]) -> (r: Vec<char>)
    ensures
        r@ == lower_all(chars@),
{
    let mut out: Vec<char> = Vec::new();
    let mut i: usize = 0;
    while i < chars.len()
        invariant
            i <= chars@.len(),
            out@.len() == i,
            forall|j: int| 0 <= j < i ==> #[trigger] out@[j] == lower(chars@[j]),
        decreases chars@.len() - i,
    {
        out.push(to_lower(chars[i]));
        i = i + 1;
    }
    assert(out@ == lower_all(chars@));
    out
}

/// The characters without the white ones at the two ends.
pub fn trim(chars: &[char]) -> (r: &[char])
    ensures
        r@ == trimmed(chars@),
{
    let mut a: usize = 0;
    assert(chars@.skip(0) == chars@);
    while a < chars.len() && white(chars[a])
        invariant
            a <= chars@.len(),
            trim_start(chars@.skip(a as int)) == trim_start(chars@),
        decreases chars@.len() - a,
    {
        assert(chars@.skip(a as int).drop_first() == chars@.skip(a as int + 1));
        a = a + 1;
    }
    let rest = slice_subrange(chars, a, chars.len());
    assert(rest@ == chars@.skip(a as int));
    assert(trim_start(chars@) == rest@);
    let mut b: usize = rest.len();
    assert(rest@.take(b as int) == rest@);
    while b > 0 && white(rest[b - 1])
        invariant
            b <= rest@.len(),
            trim_end(rest@.take(b as int)) == trim_end(rest@),
        decreases b,
    {
        assert(rest@.take(b as int).drop_last() == rest@.take(b as int - 1));
        b = b - 1;
    }
    let out = slice_subrange(rest, 0, b);
    assert(out@ == rest@.take(b as int));
    out
}

/// Whether the two hold the same characters.
pub fn same(a: &[char], b: &[char]) -> (r: bool)
    ensures
        r == (a@ == b@),
{
    if a.len() != b.len() {
        return false;
    }
    let mut i: usize = 0;
    while i < a.len()
        invariant
            i <= a@.len(),
            a@.len() == b@.len(),
            forall|j: int| 0 <= j < i ==> a@[j] == b@[j],
        decreases a@.len() - i,
    {
        if a[i] != b[i] {
            assert(a@[i as int] != b@[i as int]);
            return false;
        }
        i = i + 1;
    }
    assert(a@ == b@);
    true
}

/// Whether the characters are those of `literal`.
pub fn is_text(a: &[char], literal: &str) -> (r: bool)
    ensures
        r == (a@ == literal@),
{
    let b = chars_of(literal);
    same(a, b.as_slice())
}

/// Whether the characters begin with those of `prefix`.
pub fn has_prefix(a: &[char], prefix: &str) -> (r: bool)
    ensures
        r == prefix@.is_prefix_of(a@),
{
    let p = chars_of(prefix);
    if a.len() < p.len() {
        return false;
    }
    same(slice_subrange(a, 0, p.len()), p.as_slice())
}

/// Whether the characters end with those of `suffix`.
pub fn has_suffix(a: &[char], suffix: &[char]) -> (r: bool)
    ensures
        r == suffix@.is_suffix_of(a@),
{
    if a.len() < suffix.len() {
        return false;
    }
    same(slice_subrange(a, a.len() - suffix.len(), a.len()), suffix)
}

/// Whether the characters end with those of `literal`.
pub fn ends_with(a: &[char], literal: &str) -> (r: bool)
    ensures
        r == literal@.is_suffix_of(a@),
{
    let s = chars_of(literal);
    has_suffix(a, s.as_slice())
}

/// Whether `c` is among `set`.
pub fn member(set: &[char], c: char) -> (r: bool)
    ensures
        r == set@.contains(c),
{
    let mut i: usize = 0;
    while i < set.len()
        invariant
            i <= set@.len(),
            forall|j: int| 0 <= j < i ==> set@[j] != c,
        decreases set@.len() - i,
    {
        if set[i] == c {
            assert(set@[i as int] == c);
            return true;
        }
        i = i + 1;
    }
    false
}

/// The position of the first character that is in `stops`, or the length.
pub fn position_any(a: &[char], stops: &[char]) -> (r: usize)
    ensures
        r as int == find_any(a@, stops@),
        r <= a@.len(),
{
    let mut i: usize = 0;
    while i < a.len()
        invariant
            i <= a@.len(),
            forall|j: int| 0 <= j < i ==> !stops@.contains(#[trigger] a@[j]),
        decreases a@.len() - i,
    {
        if member(stops, a[i]) {
            proof {
                lemma_find_any_unique(a@, stops@, i as int);
            }
            return i;
        }
        i = i + 1;
    }
    proof {
        lemma_find_any_unique(a@, stops@, i as int);
    }
    i
}

/// The pieces between the occurrences of `sep`.
pub fn split_at_each(a: &[char], sep: char) -> (r: Vec<Vec<char>>)
    ensures
        r@.len() == split(a@, sep).len(),
        forall|i: int| 0 <= i < r@.len() ==> (#[trigger] r@[i])@ == split(a@, sep)[i],
{
    let stops: [char; 1] = [sep];
    assert(stops@ == seq![sep]);
    let mut out: Vec<Vec<char>> = Vec::new();
    let mut start: usize = 0;
    let ghost mut done: Seq<Seq<char>> = seq![];
    assert(a@.skip(0) == a@);
    assert(done + split(a@.skip(0), sep) == split(a@, sep));
    loop
        invariant
            stops@ == seq![sep],
            start <= a@.len(),
            split(a@, sep) == done + split(a@.skip(start as int), sep),
            out@.len() == done.len(),
            forall|j: int| 0 <= j < out@.len() ==> (#[trigger] out@[j])@ == done[j],
        decreases a@.len() - start,
    {
        let rest = slice_subrange(a, start, a.len());
        assert(rest@ == a@.skip(start as int));
        let k: usize = position_any(rest, stops.as_slice());
        let piece = slice_subrange(rest, 0, k);
        assert(piece@ == rest@.take(k as int));
        out.push(slice_to_chars(piece));
        if k == rest.len() {
            assert(rest@.take(k as int) == rest@);
            assert(split(a@, sep) == done.push(rest@));
            return out;
        }
        proof {
            assert(rest@.skip(k + 1) == a@.skip(start + k + 1));
            assert(done + (seq![piece@] + split(rest@.skip(k + 1), sep)) == done.push(piece@)
                + split(rest@.skip(k + 1), sep));
            done = done.push(piece@);
        }
        start = start + k + 1;
    }
}

/// A copy of the characters.
pub fn slice_to_chars(a: &[char]) -> (r: Vec<char>)
    ensures
        r@ == a@,
{
    vstd::slice::slice_to_vec(a)
}

/// The pieces between the white characters, without the empty ones.
pub fn words_of(a: &[char]) -> (r: Vec<Vec<char>>)
    ensures
        r@.len() == words(a@).len(),
        forall|i: int| 0 <= i < r@.len() ==> (#[trigger] r@[i])@ == words(a@)[i],
{
    let mut out: Vec<Vec<char>> = Vec::new();
    let mut i: usize = 0;
    let ghost mut done: Seq<Seq<char>> = seq![];
    assert(a@.skip(0) == a@);
    assert(done + words(a@.skip(0)) == words(a@));
    while i < a.len()
        invariant
            i <= a@.len(),
            words(a@) == done + words(a@.skip(i as int)),
            out@.len() == done.len(),
            forall|j: int| 0 <= j < out@.len() ==> (#[trigger] out@[j])@ == done[j],
        decreases a@.len() - i,
    {
        let ghost rest = a@.skip(i as int);
        if white(a[i]) {
            assert(rest.drop_first() == a@.skip(i as int + 1));
            i = i + 1;
        } else {
            let mut k: usize = i;
            while k < a.len() && !white(a[k])
                invariant
                    i <= k <= a@.len(),
                    forall|j: int| i <= j < k ==> !is_white(#[trigger] a@[j]),
                decreases a@.len() - k,
            {
                k = k + 1;
            }
            proof {
                lemma_word_len_unique(rest, k - i);
                assert(!is_white(a@[i as int]));
                assert(k > i);
                assert(rest.take(k - i) == a@.subrange(i as int, k as int));
                assert(rest.skip(k - i) == a@.skip(k as int));
                assert(done + (seq![rest.take(k - i)] + words(a@.skip(k as int))) == done.push(
                    rest.take(k - i),
                ) + words(a@.skip(k as int)));
                done = done.push(rest.take(k - i));
            }
            out.push(slice_to_chars(slice_subrange(a, i, k)));
            i = k;
        }
    }
    assert(done + words(a@.skip(i as int)) == done);
    out
}

/// Whether `part` stands somewhere in `a`.
pub fn holds(a: &[char], part: &str) -> (r: bool)
    ensures
        r == occurs(part@, a@),
{
    let p = chars_of(part);
    if a.len() < p.len() {
        return false;
    }
    let total: usize = a.len();
    let last: usize = total - p.len();
    let mut i: usize = 0;
    while i <= last
        invariant
            p@ == part@,
            total == a@.len(),
            last + p@.len() == total,
            i <= last + 1,
            forall|j: int| 0 <= j < i ==> !occurs_at(part@, a@, j),
        decreases last + 1 - i,
    {
        if same(slice_subrange(a, i, i + p.len()), p.as_slice()) {
            assert(occurs_at(part@, a@, i as int));
            return true;
        }
        if i == last {
            assert forall|j: int| !occurs_at(part@, a@, j) by {
                if 0 <= j < i {
                    assert(!occurs_at(part@, a@, j));
                }
            }
            return false;
        }
        i = i + 1;
    }
    false
}

} // verus!
