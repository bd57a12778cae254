//! The icons that a page links to, and which of them is the best one.

use vstd::prelude::*;
use vstd::slice::slice_subrange;

use crate::ip::{parse_u32, u32_text};
use crate::notation::{
    decimal_text, law_number_reads_back, lemma_decimal_digits, zeros_text,
};
use crate::text::{
    chars_of, copy_of, find_any, holds, is_text, is_white, law_find_any, law_trimmed_is, lower_all,
    occurs, owned_text, position_any, string_of, text_of, to_lower_all, trim, trimmed, words,
    words_of,
};

verus! {

/// A whole `link` tag.
pub const LINK_TAG: &'static str = "(?is)<link\\b[^>]*>";

/// One of the attributes that tell about an icon, with its value in double or single quotes.
pub const LINK_ATTRIBUTE: &'static str =
    "(?i)(href|rel|sizes|type)\\s*=\\s*(\"([^\"]*)\"|'([^']*)')";

/// What `regex` finds: for each match of the pattern, in order, its groups from group 0 on.
/// `None` where the pattern is no regular expression.
pub uninterp spec fn regex_groups(pattern: Seq<char>, text: Seq<char>) -> Option<
    Seq<Seq<Option<Seq<char>>>>,
>;

/// What `url` makes of a reference in a document with the URL `base`.
pub uninterp spec fn url_join(base: Seq<char>, reference: Seq<char>) -> Option<Seq<char>>;

/// The groups of one match as text.
pub open spec fn row_text(row: Seq<Option<String>>) -> Seq<Option<Seq<char>>> {
    Seq::new(row.len(), |i: int| owned_text(row[i]))
}

/// The groups of all matches as text.
pub open spec fn rows_text(rows: Seq<Vec<Option<String>>>) -> Seq<Seq<Option<Seq<char>>>> {
    Seq::new(rows.len(), |i: int| row_text(rows[i]@))
}

// ---- Scores ----

/// One of the words is `word`.
pub open spec fn has_word(list: Seq<Seq<char>>, word: Seq<char>) -> bool {
    list.contains(word)
}

/// The relation names an icon.
pub open spec fn is_icon_rel(rel: Seq<char>) -> bool {
    let w = words(rel);
    has_word(w, "icon"@) || has_word(w, "apple-touch-icon"@) || has_word(w, "shortcut"@)
        || has_word(w, "apple-touch-icon-precomposed"@)
}

/// The relation names a touch icon.
pub open spec fn is_touch_rel(rel: Seq<char>) -> bool {
    let w = words(rel);
    has_word(w, "apple-touch-icon"@) || has_word(w, "apple-touch-icon-precomposed"@)
}

/// The link is to a vector image, by its type or by a word of its relation.
pub open spec fn is_vector(rel: Seq<char>, kind: Seq<char>) -> bool {
    kind == "image/svg+xml"@ || exists|i: int|
        0 <= i < words(rel).len() && occurs("svg"@, #[trigger] words(rel)[i])
}

/// The number before the first `x` of a size, or 0.
pub open spec fn size_of(sizes: Option<Seq<char>>) -> u32 {
    match sizes {
        Some(s) => match u32_text(s.take(find_any(s, seq!['x']))) {
            Some(n) => n,
            None => 0,
        },
        None => 0,
    }
}

/// The score of a link, or `None` where it is to no icon: 100000 for a vector image, 90000 and
/// the size for a touch icon, 10000 and the size for any other. The sums are taken modulo 2^32.
pub open spec fn link_score(
    rel: Seq<char>,
    sizes: Option<Seq<char>>,
    kind: Seq<char>,
) -> Option<u32> {
    if !is_icon_rel(rel) {
        None
    } else if is_vector(rel, kind) {
        Some(100_000)
    } else if is_touch_rel(rel) {
        Some(((90_000 + size_of(sizes)) % 0x1_0000_0000) as u32)
    } else {
        Some(((10_000 + size_of(sizes)) % 0x1_0000_0000) as u32)
    }
}

// ---- Tags ----

/// What the attributes of a tag tell about an icon.
pub struct TagText {
    pub href: Option<Seq<char>>,
    pub rel: Seq<char>,
    pub sizes: Option<Seq<char>>,
    pub kind: Seq<char>,
}

/// Group `k` of a match, where there is one.
pub open spec fn group(row: Seq<Option<Seq<char>>>, k: int) -> Option<Seq<char>> {
    if k < row.len() {
        row[k]
    } else {
        None
    }
}

/// The name of an attribute, in lower case.
pub open spec fn attr_key(row: Seq<Option<Seq<char>>>) -> Seq<char> {
    match group(row, 1) {
        Some(k) => lower_all(k),
        None => seq![],
    }
}

/// The value of an attribute, from whichever of the two quotes it stands in.
pub open spec fn attr_value(row: Seq<Option<Seq<char>>>) -> Seq<char> {
    match (group(row, 3), group(row, 4)) {
        (Some(v), _) => v,
        (None, Some(v)) => v,
        _ => seq![],
    }
}

/// The value of the last attribute with that name.
pub open spec fn last_value(rows: Seq<Seq<Option<Seq<char>>>>, key: Seq<char>) -> Option<Seq<char>>
    decreases rows.len(),
{
    if rows.len() == 0 {
        None
    } else if attr_key(rows.last()) == key {
        Some(attr_value(rows.last()))
    } else {
        last_value(rows.drop_last(), key)
    }
}

/// The text, or nothing, in lower case.
pub open spec fn lower_or_empty(o: Option<Seq<char>>) -> Seq<char> {
    match o {
        Some(s) => lower_all(s),
        None => seq![],
    }
}

/// What the attributes of a tag tell; the last one of a name counts.
pub open spec fn tag_of(rows: Seq<Seq<Option<Seq<char>>>>) -> TagText {
    TagText {
        href: last_value(rows, "href"@),
        rel: lower_or_empty(last_value(rows, "rel"@)),
        sizes: last_value(rows, "sizes"@),
        kind: lower_or_empty(last_value(rows, "type"@)),
    }
}

/// The reference and the score of a tag, where it is an icon link with a reference.
pub open spec fn candidate(tag: TagText) -> Option<(Seq<char>, u32)> {
    match (link_score(tag.rel, tag.sizes, tag.kind), tag.href) {
        (Some(score), Some(href)) => Some((href, score)),
        _ => None,
    }
}

/// The candidate with the highest score, the first one of those that have it.
pub open spec fn best_of(tags: Seq<TagText>) -> Option<(Seq<char>, u32)>
    decreases tags.len(),
{
    if tags.len() == 0 {
        None
    } else {
        match (best_of(tags.drop_last()), candidate(tags.last())) {
            (Some(best), Some(c)) => if c.1 > best.1 {
                Some(c)
            } else {
                Some(best)
            },
            (None, Some(c)) => Some(c),
            (best, None) => best,
        }
    }
}

/// The attributes of a tag that was found as `row`.
pub open spec fn attributes_of(row: Seq<Option<Seq<char>>>) -> Seq<Seq<Option<Seq<char>>>> {
    match group(row, 0) {
        Some(tag) => match regex_groups(LINK_ATTRIBUTE@, tag) {
            Some(rows) => rows,
            None => seq![],
        },
        None => seq![],
    }
}

/// The attributes of every link tag of a page.
pub open spec fn page_attributes(html: Seq<char>) -> Seq<Seq<Seq<Option<Seq<char>>>>> {
    match regex_groups(LINK_TAG@, html) {
        Some(tags) => Seq::new(tags.len(), |i: int| attributes_of(tags[i])),
        None => seq![],
    }
}

/// What the attributes of every tag tell.
pub open spec fn tags_of(attributes: Seq<Seq<Seq<Option<Seq<char>>>>>) -> Seq<TagText> {
    Seq::new(attributes.len(), |i: int| tag_of(attributes[i]))
}

/// The reference of the best icon among the tags with these attributes.
pub open spec fn best_href(attributes: Seq<Seq<Seq<Option<Seq<char>>>>>) -> Option<Seq<char>> {
    match best_of(tags_of(attributes)) {
        Some(best) => Some(best.0),
        None => None,
    }
}

/// The absolute URL of a reference; white characters around it do not count.
pub open spec fn resolved(href: Seq<char>, base: Seq<char>) -> Option<Seq<char>> {
    url_join(base, trimmed(href))
}

/// The absolute URL of the best icon that a page links to.
pub open spec fn best_icon_url(html: Seq<char>, base: Seq<char>) -> Option<Seq<char>> {
    match best_href(page_attributes(html)) {
        Some(href) => resolved(href, base),
        None => None,
    }
}

// ---- Laws ----

/// The choice is the best one: nothing that is linked scores higher, and what comes before it
/// scores lower. Nothing is chosen only where nothing is a candidate.
pub proof fn law_best_is_first_highest(tags: Seq<TagText>)
    ensures
        best_of(tags) matches Some(best) ==> exists|i: int|
            {
                &&& 0 <= i < tags.len()
                &&& candidate(#[trigger] tags[i]) == Some(best)
                &&& forall|j: int|
                    0 <= j < tags.len() ==> (candidate(#[trigger] tags[j]) matches Some(c)
                        ==> c.1 <= best.1 && (j < i ==> c.1 < best.1))
            },
        best_of(tags) is None ==> forall|j: int|
            0 <= j < tags.len() ==> candidate(#[trigger] tags[j]) is None,
    decreases tags.len(),
{
    if tags.len() > 0 {
        let front = tags.drop_last();
        let n = front.len() as int;
        law_best_is_first_highest(front);
        assert(forall|j: int| 0 <= j < n ==> tags[j] == front[j]);
        if best_of(tags) is Some {
            let best = best_of(tags)->0;
            if best_of(front) is Some && best == best_of(front)->0 && !(candidate(
                tags.last(),
            ) is Some && (candidate(tags.last())->0).1 > (best_of(front)->0).1) {
                let i = choose|i: int|
                    {
                        &&& 0 <= i < front.len()
                        &&& candidate(#[trigger] front[i]) == Some(best)
                        &&& forall|j: int|
                            0 <= j < front.len() ==> (candidate(#[trigger] front[j]) matches Some(c)
                                ==> c.1 <= best.1 && (j < i ==> c.1 < best.1))
                    };
                assert(candidate(tags[i]) == Some(best));
                assert forall|j: int| 0 <= j < tags.len() implies (candidate(
                    #[trigger] tags[j],
                ) matches Some(c) ==> c.1 <= best.1 && (j < i ==> c.1 < best.1)) by {
                    if j < n {
                        assert(tags[j] == front[j]);
                    }
                }
            } else {
                assert(candidate(tags[n]) == Some(best));
                assert forall|j: int| 0 <= j < tags.len() implies (candidate(
                    #[trigger] tags[j],
                ) matches Some(c) ==> c.1 <= best.1 && (j < n ==> c.1 < best.1)) by {
                    if j < n {
                        assert(tags[j] == front[j]);
                    }
                }
            }
        } else {
            assert forall|j: int| 0 <= j < tags.len() implies candidate(
                #[trigger] tags[j],
            ) is None by {
                if j < n {
                    assert(tags[j] == front[j]);
                }
            }
        }
    }
}

/// A vector image beats a touch icon of less than 10000 pixels.
pub proof fn law_vector_beats_touch(
    rel: Seq<char>,
    sizes: Option<Seq<char>>,
    kind: Seq<char>,
    touch_rel: Seq<char>,
    touch_sizes: Option<Seq<char>>,
    touch_kind: Seq<char>,
)
    requires
        is_icon_rel(rel),
        is_vector(rel, kind),
        is_touch_rel(touch_rel),
        !is_vector(touch_rel, touch_kind),
        size_of(touch_sizes) < 10_000,
    ensures
        link_score(rel, sizes, kind)->0 > link_score(touch_rel, touch_sizes, touch_kind)->0,
{
}

/// A vector image beats an icon of less than 90000 pixels that is neither one nor a touch icon.
pub proof fn law_vector_beats_plain(
    rel: Seq<char>,
    sizes: Option<Seq<char>>,
    kind: Seq<char>,
    plain_rel: Seq<char>,
    plain_sizes: Option<Seq<char>>,
    plain_kind: Seq<char>,
)
    requires
        is_icon_rel(rel),
        is_vector(rel, kind),
        is_icon_rel(plain_rel),
        !is_touch_rel(plain_rel),
        !is_vector(plain_rel, plain_kind),
        size_of(plain_sizes) < 90_000,
    ensures
        link_score(rel, sizes, kind)->0 > link_score(plain_rel, plain_sizes, plain_kind)->0,
{
}

/// A touch icon beats another icon that is less than 80000 pixels larger and no vector image.
pub proof fn law_touch_beats_plain(
    rel: Seq<char>,
    sizes: Option<Seq<char>>,
    kind: Seq<char>,
    plain_rel: Seq<char>,
    plain_sizes: Option<Seq<char>>,
    plain_kind: Seq<char>,
)
    requires
        is_touch_rel(rel),
        !is_vector(rel, kind),
        is_icon_rel(plain_rel),
        !is_touch_rel(plain_rel),
        !is_vector(plain_rel, plain_kind),
        size_of(plain_sizes) < size_of(sizes) + 80_000,
        size_of(sizes) + 90_000 <= u32::MAX,
    ensures
        link_score(rel, sizes, kind)->0 > link_score(plain_rel, plain_sizes, plain_kind)->0,
{
}

/// Of two links of one sort that are no vector images, the larger one scores higher.
pub proof fn law_larger_scores_higher(
    rel: Seq<char>,
    sizes: Option<Seq<char>>,
    larger: Option<Seq<char>>,
    kind: Seq<char>,
)
    requires
        is_icon_rel(rel),
        !is_vector(rel, kind),
        size_of(sizes) < size_of(larger),
        size_of(larger) + (if is_touch_rel(rel) {
            90_000int
        } else {
            10_000
        }) <= u32::MAX,
    ensures
        link_score(rel, sizes, kind)->0 < link_score(rel, larger, kind)->0,
{
}

/// The groups of tags as text are those of each tag, each match and each group, in order.
pub proof fn law_groups_as_text(
    tags: Seq<Vec<Vec<Option<String>>>>,
    i: int,
    j: int,
    k: int,
    text: String,
)
    requires
        0 <= i < tags.len(),
        0 <= j < tags[i]@.len(),
        0 <= k < tags[i]@[j]@.len(),
    ensures
        all_rows_text(tags).len() == tags.len(),
        all_rows_text(tags)[i].len() == tags[i]@.len(),
        all_rows_text(tags)[i][j].len() == tags[i]@[j]@.len(),
        tags[i]@[j]@[k] == Some(text) ==> all_rows_text(tags)[i][j][k] == Some(text@),
        tags[i]@[j]@[k] is None ==> all_rows_text(tags)[i][j][k] is None,
{
}

/// The size of a link is the number that its attribute begins with, whatever follows the `x`, for
/// every number below 2^32 in decimal; a larger one and an attribute that does not begin with a
/// number count as nothing.
pub proof fn law_size_is_read(n: nat, zeros: nat, rest: Seq<char>)
    ensures
        ({
            let digits = zeros_text(zeros) + decimal_text(n);
            let size = if n <= u32::MAX {
                n
            } else {
                0
            };
            &&& size_of(Some(digits + seq!['x'] + rest)) == size
            &&& size_of(Some(digits)) == size
        }),
        size_of(None) == 0,
{
    let digits = zeros_text(zeros) + decimal_text(n);
    let stop = seq!['x'];
    assert(stop[0] == 'x');
    law_number_reads_back(n, zeros);
    lemma_decimal_digits(n);
    assert forall|i: int| 0 <= i < digits.len() implies !stop.contains(#[trigger] digits[i]) by {
        if i >= zeros {
            assert(digits[i] == decimal_text(n)[i - zeros]);
        }
    }
    let tail = stop + rest;
    law_find_any(digits, tail, stop);
    assert(digits + stop + rest == digits + tail);
    assert((digits + tail).take(digits.len() as int) == digits);
    let nothing = Seq::<char>::empty();
    law_find_any(digits, nothing, stop);
    assert(digits + nothing == digits);
    assert(digits.take(digits.len() as int) == digits);
}

/// What stands before the `x` and is no number counts as nothing.
pub proof fn law_no_number_no_size(front: Seq<char>, rest: Seq<char>)
    requires
        !front.contains('x'),
        u32_text(front) is None,
    ensures
        size_of(Some(front + seq!['x'] + rest)) == 0,
        size_of(Some(front)) == 0,
{
    let stop = seq!['x'];
    assert(stop[0] == 'x');
    assert forall|i: int| 0 <= i < front.len() implies !stop.contains(#[trigger] front[i]) by {
        assert(front.contains(front[i]));
    }
    law_find_any(front, stop + rest, stop);
    assert(front + stop + rest == front + (stop + rest));
    assert((front + (stop + rest)).take(front.len() as int) == front);
    let nothing = Seq::<char>::empty();
    law_find_any(front, nothing, stop);
    assert(front + nothing == front);
    assert(front.take(front.len() as int) == front);
}

/// No word of a relation names SVG.
pub open spec fn no_svg_word(rel: Seq<char>) -> bool {
    forall|i: int| 0 <= i < words(rel).len() ==> !occurs("svg"@, #[trigger] words(rel)[i])
}

/// A link is a plain icon: one word of its relation is `icon` or `shortcut`, none is that of a
/// touch icon, and neither its relation nor its type names SVG.
pub open spec fn is_plain_icon(rel: Seq<char>, kind: Seq<char>) -> bool {
    &&& words(rel).contains("icon"@) || words(rel).contains("shortcut"@)
    &&& !words(rel).contains("apple-touch-icon"@)
    &&& !words(rel).contains("apple-touch-icon-precomposed"@)
    &&& no_svg_word(rel)
    &&& kind != "image/svg+xml"@
}

/// A plain icon scores 10000 and its size, in decimal before the `x`, modulo 2^32.
pub proof fn law_plain_icon_score(rel: Seq<char>, kind: Seq<char>, n: nat, rest: Seq<char>)
    requires
        is_plain_icon(rel, kind),
        n <= u32::MAX,
    ensures
        link_score(rel, Some(decimal_text(n) + seq!['x'] + rest), kind) == Some(
            ((10_000 + n) % 0x1_0000_0000) as u32,
        ),
        link_score(rel, None, kind) == Some(10_000u32),
{
    law_size_is_read(n, 0, rest);
    assert(zeros_text(0) + decimal_text(n) == decimal_text(n));
}

/// A touch icon that does not name SVG scores 90000 and its size, modulo 2^32.
pub proof fn law_touch_icon_score(rel: Seq<char>, kind: Seq<char>, n: nat, rest: Seq<char>)
    requires
        words(rel).contains("apple-touch-icon"@) || words(rel).contains(
            "apple-touch-icon-precomposed"@,
        ),
        no_svg_word(rel),
        kind != "image/svg+xml"@,
        n <= u32::MAX,
    ensures
        link_score(rel, Some(decimal_text(n) + seq!['x'] + rest), kind) == Some(
            ((90_000 + n) % 0x1_0000_0000) as u32,
        ),
        link_score(rel, None, kind) == Some(90_000u32),
{
    law_size_is_read(n, 0, rest);
    assert(zeros_text(0) + decimal_text(n) == decimal_text(n));
}

/// An icon that names SVG, by its type or in a word of its relation, scores 100000 with any size.
pub proof fn law_vector_icon_score(rel: Seq<char>, sizes: Option<Seq<char>>, kind: Seq<char>)
    requires
        words(rel).contains("icon"@) || words(rel).contains("shortcut"@) || words(rel).contains(
            "apple-touch-icon"@,
        ) || words(rel).contains("apple-touch-icon-precomposed"@),
        kind == "image/svg+xml"@ || !no_svg_word(rel),
    ensures
        link_score(rel, sizes, kind) == Some(100_000u32),
{
}

/// A link whose relation has none of the four words is to no icon.
pub proof fn law_other_links_have_no_score(
    rel: Seq<char>,
    sizes: Option<Seq<char>>,
    kind: Seq<char>,
)
    requires
        !words(rel).contains("icon"@),
        !words(rel).contains("shortcut"@),
        !words(rel).contains("apple-touch-icon"@),
        !words(rel).contains("apple-touch-icon-precomposed"@),
    ensures
        link_score(rel, sizes, kind) is None,
{
}

/// Of plain icons with their sizes in decimal the largest one is chosen, and the first of those
/// that are as large.
#[verifier::rlimit(50)]
pub proof fn law_largest_plain_icon_is_chosen(
    tags: Seq<TagText>,
    sizes: Seq<nat>,
    rests: Seq<Seq<char>>,
    k: int,
)
    requires
        tags.len() == sizes.len() == rests.len(),
        0 <= k < tags.len(),
        forall|j: int|
            0 <= j < tags.len() ==> {
                let tag = #[trigger] tags[j];
                &&& is_plain_icon(tag.rel, tag.kind)
                &&& tag.href is Some
                &&& tag.sizes == Some(decimal_text(sizes[j]) + seq!['x'] + rests[j])
                &&& sizes[j] + 10_000 <= u32::MAX
                &&& j < k ==> sizes[j] < sizes[k]
                &&& j > k ==> sizes[j] <= sizes[k]
            },
    ensures
        best_of(tags) == Some((tags[k].href->0, (10_000 + sizes[k]) as u32)),
{
    assert forall|j: int| 0 <= j < tags.len() implies candidate(#[trigger] tags[j]) == Some(
        (tags[j].href->0, (10_000 + sizes[j]) as u32),
    ) by {
        law_plain_icon_score(tags[j].rel, tags[j].kind, sizes[j], rests[j]);
    }
    law_best_is_first_highest(tags);
    assert(candidate(tags[k]) is Some);
    assert(best_of(tags) is Some);
    let best = best_of(tags)->0;
    let i = choose|i: int|
        {
            &&& 0 <= i < tags.len()
            &&& candidate(#[trigger] tags[i]) == Some(best)
            &&& forall|j: int|
                0 <= j < tags.len() ==> (candidate(#[trigger] tags[j]) matches Some(c) ==> c.1
                    <= best.1 && (j < i ==> c.1 < best.1))
        };
    assert(candidate(tags[k]) == Some((tags[k].href->0, (10_000 + sizes[k]) as u32)));
    assert(candidate(tags[i]) == Some((tags[i].href->0, (10_000 + sizes[i]) as u32)));
    assert(sizes[i] == sizes[k]);
    assert(i == k);
}

/// The chosen reference is that of a link to an icon with the highest score of all that have a
/// reference, and the first one of those; none is chosen only where no link to an icon has one.
#[verifier::rlimit(50)]
pub proof fn law_chosen_reference(attributes: Seq<Seq<Seq<Option<Seq<char>>>>>)
    ensures
        best_href(attributes) matches Some(href) ==> exists|i: int|
            {
                let tag = tag_of(#[trigger] attributes[i]);
                &&& 0 <= i < attributes.len()
                &&& tag.href == Some(href)
                &&& link_score(tag.rel, tag.sizes, tag.kind) matches Some(best) && forall|j: int|
                    {
                        let other = tag_of(#[trigger] attributes[j]);
                        0 <= j < attributes.len() && other.href is Some ==> (link_score(
                            other.rel,
                            other.sizes,
                            other.kind,
                        ) matches Some(score) ==> score <= best && (j < i ==> score < best))
                    }
            },
        best_href(attributes) is None ==> forall|j: int|
            {
                let other = tag_of(#[trigger] attributes[j]);
                0 <= j < attributes.len() ==> other.href is None || link_score(
                    other.rel,
                    other.sizes,
                    other.kind,
                ) is None
            },
{
    let tags = tags_of(attributes);
    law_best_is_first_highest(tags);
    assert forall|j: int| 0 <= j < attributes.len() implies #[trigger] tags[j] == tag_of(
        attributes[j],
    ) by {}
    if let Some(best) = best_of(tags) {
        let i = choose|i: int|
            {
                &&& 0 <= i < tags.len()
                &&& candidate(#[trigger] tags[i]) == Some(best)
                &&& forall|j: int|
                    0 <= j < tags.len() ==> (candidate(#[trigger] tags[j]) matches Some(c) ==> c.1
                        <= best.1 && (j < i ==> c.1 < best.1))
            };
        let tag = tag_of(attributes[i]);
        assert(tags[i] == tag);
        assert(link_score(tag.rel, tag.sizes, tag.kind) == Some(best.1));
        assert forall|j: int|
            {
                let other = tag_of(#[trigger] attributes[j]);
                0 <= j < attributes.len() && other.href is Some ==> (link_score(
                    other.rel,
                    other.sizes,
                    other.kind,
                ) matches Some(score) ==> score <= best.1 && (j < i ==> score < best.1))
            } by {
            if 0 <= j < attributes.len() {
                assert(tags[j] == tag_of(attributes[j]));
            }
        }
    } else {
        assert forall|j: int|
            {
                let other = tag_of(#[trigger] attributes[j]);
                0 <= j < attributes.len() ==> other.href is None || link_score(
                    other.rel,
                    other.sizes,
                    other.kind,
                ) is None
            } by {
            if 0 <= j < attributes.len() {
                assert(tags[j] == tag_of(attributes[j]));
                assert(candidate(tags[j]) is None);
            }
        }
    }
}

/// Each attribute adds what it tells to a tag, in place of what an earlier one of that name told: a
/// name in any case of letters in group 1, and a value in group 3 or else in group 4. Relation and
/// type are taken in lower case, reference and size as they are.
pub proof fn law_attributes_of_a_tag(
    rows: Seq<Seq<Option<Seq<char>>>>,
    row: Seq<Option<Seq<char>>>,
    name: Seq<char>,
    value: Seq<char>,
)
    requires
        row.len() == 5,
        row[1] == Some(name),
        row[3] == Some(value) || (row[3] is None && row[4] == Some(value)),
    ensures
        ({
            let before = tag_of(rows);
            let after = tag_of(rows.push(row));
            let key = lower_all(name);
            &&& key == "href"@ ==> after == TagText { href: Some(value), ..before }
            &&& key == "rel"@ ==> after == TagText { rel: lower_all(value), ..before }
            &&& key == "sizes"@ ==> after == TagText { sizes: Some(value), ..before }
            &&& key == "type"@ ==> after == TagText { kind: lower_all(value), ..before }
            &&& key != "href"@ && key != "rel"@ && key != "sizes"@ && key != "type"@ ==> after == before
        }),
        tag_of(seq![]) == (TagText { href: None, rel: seq![], sizes: None, kind: seq![] }),
{
    reveal_strlit("href");
    reveal_strlit("rel");
    reveal_strlit("sizes");
    reveal_strlit("type");
    let all = rows.push(row);
    assert(all.last() == row);
    assert(all.drop_last() == rows);
    assert("href"@.len() == 4 && "rel"@.len() == 3 && "sizes"@.len() == 5 && "type"@.len() == 4);
    assert("href"@[0] == 'h' && "type"@[0] == 't');
}

/// The attributes of a page are what the pattern for attributes finds in what the pattern for tags
/// finds, tag by tag, and the icon is the chosen reference, trimmed, seen from the page.
pub proof fn law_page_is_searched(
    html: Seq<char>,
    base: Seq<char>,
    tags: Seq<Seq<Option<Seq<char>>>>,
    i: int,
    tag: Seq<char>,
)
    requires
        regex_groups("(?is)<link\\b[^>]*>"@, html) == Some(tags),
        0 <= i < tags.len(),
        tags[i].len() > 0,
        tags[i][0] == Some(tag),
    ensures
        page_attributes(html).len() == tags.len(),
        regex_groups(
            "(?i)(href|rel|sizes|type)\\s*=\\s*(\"([^\"]*)\"|'([^']*)')"@,
            tag,
        ) matches Some(rows) ==> page_attributes(html)[i] == rows,
        best_href(page_attributes(html)) matches Some(href) ==> best_icon_url(html, base) == url_join(
            base,
            trimmed(href),
        ),
        best_href(page_attributes(html)) is None ==> best_icon_url(html, base) is None,
{
}

/// White characters around a reference make no difference.
pub proof fn law_reference_is_trimmed(
    a: Seq<char>,
    href: Seq<char>,
    b: Seq<char>,
    base: Seq<char>,
)
    requires
        forall|i: int| 0 <= i < a.len() ==> is_white(#[trigger] a[i]),
        forall|i: int| 0 <= i < b.len() ==> is_white(#[trigger] b[i]),
        href.len() > 0 ==> !is_white(href.first()) && !is_white(href.last()),
    ensures
        resolved(a + href + b, base) == url_join(base, href),
{
    law_trimmed_is(a, href, b);
}

// ---- Functions ----

/// `regex::Regex::new` and `captures_iter`: for each match its groups as text, in order; `None`
/// where the pattern is refused. The two patterns that it is asked for are regular expressions well
/// within the limit on their compiled size.
#[verifier::external_body]
fn find_groups(pattern: &str, text: &str) -> (r: Option<Vec<Vec<Option<String>>>>)
    requires
        pattern@ == LINK_TAG@ || pattern@ == LINK_ATTRIBUTE@,
    ensures
        r is Some,
        r is Some == regex_groups(pattern@, text@) is Some,
        r matches Some(rows) ==> regex_groups(pattern@, text@) == Some(rows_text(rows@)),
{
    match regex::Regex::new(pattern) {
        Ok(re) => Some(
            re.captures_iter(text)
                .map(|found| found.iter().map(|g| g.map(|m| m.as_str().to_string())).collect())
                .collect(),
        ),
        Err(_) => None,
    }
}

/// `url::Url::parse` on the base, `join` with the reference and the text of the result; `None`
/// where either gives an error.
#[verifier::external_body]
pub(crate) fn join_url(base: &str, reference: &str) -> (r: Option<String>)
    ensures
        owned_text(r) == url_join(base@, reference@),
{
    match url::Url::parse(base) {
        Ok(b) => match b.join(reference) {
            Ok(u) => Some(u.to_string()),
            Err(_) => None,
        },
        Err(_) => None,
    }
}

/// Whether one of the words is `word`.
fn any_is(list: &Vec<Vec<char>>, word: &str) -> (r: bool)
    ensures
        r == has_word(Seq::new(list@.len(), |i: int| list@[i]@), word@),
{
    let ghost texts = Seq::new(list@.len(), |i: int| list@[i]@);
    let mut i: usize = 0;
    while i < list.len()
        invariant
            i <= list@.len(),
            texts == Seq::new(list@.len(), |i: int| list@[i]@),
            forall|j: int| 0 <= j < i ==> texts[j] != word@,
        decreases list@.len() - i,
    {
        if is_text(list[i].as_slice(), word) {
            assert(texts[i as int] == word@);
            return true;
        }
        i = i + 1;
    }
    false
}

/// Whether one of the words holds `part`.
fn any_holds(list: &Vec<Vec<char>>, part: &str) -> (r: bool)
    ensures
        r == exists|i: int| 0 <= i < list@.len() && occurs(part@, #[trigger] list@[i]@),
{
    let mut i: usize = 0;
    while i < list.len()
        invariant
            i <= list@.len(),
            forall|j: int| 0 <= j < i ==> !occurs(part@, #[trigger] list@[j]@),
        decreases list@.len() - i,
    {
        if holds(list[i].as_slice(), part) {
            assert(occurs(part@, list@[i as int]@));
            return true;
        }
        i = i + 1;
    }
    false
}

/// The score of a link; `None` where it is to no icon.
pub fn score_link(rel: &str, sizes: Option<&str>, type_: &str) -> (r: Option<u32>)
    ensures
        r == link_score(rel@, text_of(sizes), type_@),
{
    let a = chars_of(rel);
    let w = words_of(a.as_slice());
    let ghost texts = Seq::new(w@.len(), |i: int| w@[i]@);
    assert(texts == words(rel@));
    let touch = any_is(&w, "apple-touch-icon") || any_is(&w, "apple-touch-icon-precomposed");
    if !touch && !any_is(&w, "icon") && !any_is(&w, "shortcut") {
        return None;
    }
    let size: u32 = match sizes {
        Some(s) => {
            let b = chars_of(s);
            let stops: [char; 1] = ['x'];
            assert(stops@ == seq!['x']);
            let k: usize = position_any(b.as_slice(), stops.as_slice());
            let first = slice_subrange(b.as_slice(), 0, k);
            assert(first@ == s@.take(k as int));
            match parse_u32(first) {
                Some(n) => n,
                None => 0,
            }
        },
        None => 0,
    };
    let t = chars_of(type_);
    let by_word = any_holds(&w, "svg");
    proof {
        if by_word {
            let i = choose|i: int| 0 <= i < w@.len() && occurs("svg"@, #[trigger] w@[i]@);
            assert(occurs("svg"@, words(rel@)[i]));
        } else {
            assert forall|i: int| 0 <= i < words(rel@).len() implies !occurs(
                "svg"@,
                #[trigger] words(rel@)[i],
            ) by {
                assert(!occurs("svg"@, w@[i]@));
            }
        }
    }
    if is_text(t.as_slice(), "image/svg+xml") || by_word {
        Some(100_000)
    } else if touch {
        Some(size.wrapping_add(90_000))
    } else {
        Some(size.wrapping_add(10_000))
    }
}

/// The absolute URL of a reference in a document with the URL `base`.
pub fn resolve_url(href: &str, base: &str) -> (r: Option<String>)
    ensures
        owned_text(r) == resolved(href@, base@),
{
    let a = chars_of(href);
    let bare = string_of(trim(a.as_slice()));
    join_url(base, bare.as_str())
}

/// What the attributes of a tag tell about an icon.
struct Tag {
    href: Option<String>,
    rel: String,
    sizes: Option<String>,
    kind: String,
}

impl Tag {
    spec fn text(self) -> TagText {
        TagText {
            href: owned_text(self.href),
            rel: self.rel@,
            sizes: owned_text(self.sizes),
            kind: self.kind@,
        }
    }
}

/// Group `k` of a match as text, where there is one.
fn group_at(row: &Vec<Option<String>>, k: usize) -> (r: Option<&str>)
    ensures
        text_of(r) == group(row_text(row@), k as int),
{
    if k < row.len() {
        assert(row_text(row@)[k as int] == owned_text(row@[k as int]));
        match &row[k] {
            Some(t) => Some(t.as_str()),
            None => None,
        }
    } else {
        None
    }
}

fn lower_string(text: &str) -> (r: String)
    ensures
        r@ == lower_all(text@),
{
    let a = chars_of(text);
    let low = to_lower_all(a.as_slice());
    string_of(low.as_slice())
}

/// What the attributes of a tag tell; the last one of a name counts.
fn read_tag(rows: &Vec<Vec<Option<String>>>) -> (r: Tag)
    ensures
        r.text() == tag_of(rows_text(rows@)),
{
    let mut tag = Tag { href: None, rel: String::new(), sizes: None, kind: String::new() };
    let ghost texts = rows_text(rows@);
    let mut i: usize = 0;
    proof {
        reveal_strlit("href");
        reveal_strlit("rel");
        reveal_strlit("sizes");
        reveal_strlit("type");
    }
    assert(texts.take(0) == Seq::<Seq<Option<Seq<char>>>>::empty());
    while i < rows.len()
        invariant
            i <= rows@.len(),
            texts == rows_text(rows@),
            "href"@.len() == 4,
            "rel"@.len() == 3,
            "sizes"@.len() == 5,
            "type"@.len() == 4,
            "href"@[0] == 'h',
            "type"@[0] == 't',
            tag.text() == tag_of(texts.take(i as int)),
        decreases rows@.len() - i,
    {
        let row = &rows[i];
        let ghost next = texts.take(i as int + 1);
        assert(next.drop_last() == texts.take(i as int));
        assert(next.last() == row_text(row@));
        let key: Vec<char> = match group_at(row, 1) {
            Some(k) => {
                let a = chars_of(k);
                to_lower_all(a.as_slice())
            },
            None => Vec::new(),
        };
        assert(key@ == attr_key(next.last()));
        let value: &str = match group_at(row, 3) {
            Some(v) => v,
            None => match group_at(row, 4) {
                Some(v) => v,
                None => "",
            },
        };
        proof {
            reveal_strlit("");
        }
        assert(value@ == attr_value(next.last()));
        if is_text(key.as_slice(), "href") {
            tag.href = Some(copy_of(value));
        } else if is_text(key.as_slice(), "rel") {
            tag.rel = lower_string(value);
        } else if is_text(key.as_slice(), "sizes") {
            tag.sizes = Some(copy_of(value));
        } else if is_text(key.as_slice(), "type") {
            tag.kind = lower_string(value);
        }
        i = i + 1;
    }
    assert(texts.take(i as int) == texts);
    tag
}

fn as_text(o: &Option<String>) -> (r: Option<&str>)
    ensures
        text_of(r) == owned_text(*o),
{
    match o {
        Some(t) => Some(t.as_str()),
        None => None,
    }
}

/// The attributes of every tag as text.
pub open spec fn all_rows_text(tags: Seq<Vec<Vec<Option<String>>>>) -> Seq<
    Seq<Seq<Option<Seq<char>>>>,
> {
    Seq::new(tags.len(), |i: int| rows_text(tags[i]@))
}

/// The reference of the best icon among tags, each given by the groups of its attributes: the
/// name in group 1, the value in group 3 or 4.
pub fn choose_link(tags: &Vec<Vec<Vec<Option<String>>>>) -> (r: Option<String>)
    ensures
        owned_text(r) == best_href(all_rows_text(tags@)),
{
    let ghost list = tags_of(all_rows_text(tags@));
    let mut best: Option<(String, u32)> = None;
    let mut i: usize = 0;
    assert(list.take(0) == Seq::<TagText>::empty());
    while i < tags.len()
        invariant
            i <= tags@.len(),
            list == tags_of(all_rows_text(tags@)),
            (match best {
                Some(b) => Some((b.0@, b.1)),
                None => None,
            }) == best_of(list.take(i as int)),
        decreases tags@.len() - i,
    {
        let ghost next = list.take(i as int + 1);
        assert(next.drop_last() == list.take(i as int));
        let tag = read_tag(&tags[i]);
        assert(all_rows_text(tags@)[i as int] == rows_text(tags@[i as int]@));
        assert(next.last() == tag.text());
        match score_link(tag.rel.as_str(), as_text(&tag.sizes), tag.kind.as_str()) {
            Some(score) => match tag.href {
                Some(href) => {
                    let better = match &best {
                        Some(b) => score > b.1,
                        None => true,
                    };
                    if better {
                        best = Some((href, score));
                    }
                },
                None => {},
            },
            None => {},
        }
        i = i + 1;
    }
    assert(list.take(i as int) == list);
    match best {
        Some(b) => Some(b.0),
        None => None,
    }
}

/// The absolute URL of the best icon that a page links to, for a page with the URL `base`.
pub fn pick_best_link(html: &str, base: &str) -> (r: Option<String>)
    ensures
        owned_text(r) == best_icon_url(html@, base@),
{
    let tags = match find_groups(LINK_TAG, html) {
        Some(rows) => rows,
        None => {
            assert(tags_of(page_attributes(html@)).len() == 0);
            return None;
        },
    };
    let mut attributes: Vec<Vec<Vec<Option<String>>>> = Vec::new();
    let mut i: usize = 0;
    while i < tags.len()
        invariant
            i <= tags@.len(),
            regex_groups(LINK_TAG@, html@) == Some(rows_text(tags@)),
            attributes@.len() == i,
            forall|j: int|
                0 <= j < i ==> rows_text((#[trigger] attributes@[j])@) == attributes_of(
                    rows_text(tags@)[j],
                ),
        decreases tags@.len() - i,
    {
        let found: Vec<Vec<Option<String>>> = match group_at(&tags[i], 0) {
            Some(tag) => match find_groups(LINK_ATTRIBUTE, tag) {
                Some(rows) => rows,
                None => Vec::new(),
            },
            None => Vec::new(),
        };
        assert(rows_text(tags@)[i as int] == row_text(tags@[i as int]@));
        assert(rows_text(found@) == attributes_of(rows_text(tags@)[i as int]));
        attributes.push(found);
        i = i + 1;
    }
    assert(all_rows_text(attributes@) == page_attributes(html@));
    match choose_link(&attributes) {
        Some(href) => resolve_url(href.as_str(), base),
        None => None,
    }
}

} // verus!
