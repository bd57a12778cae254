//! The operator's own images: which files are listed and served, and in what order.

use vstd::prelude::*;

use crate::media::{ctype_for_filename, type_of_name};
use crate::reply::{bare_reply, icon_response, image_reply, status_response, Reply};
use crate::text::{chars_of, holds, member, occurs, occurs_at};

verus! {

/// `a` comes before `b` or is the same: by the first character in which they differ, and a text
/// before what it is the beginning of.
pub open spec fn text_le(a: Seq<char>, b: Seq<char>) -> bool
    decreases a.len(),
{
    if a.len() == 0 {
        true
    } else if b.len() == 0 {
        false
    } else if a[0] != b[0] {
        a[0] < b[0]
    } else {
        text_le(a.drop_first(), b.drop_first())
    }
}

/// The texts are in order.
pub open spec fn in_order(list: Seq<Seq<char>>) -> bool {
    forall|i: int, j: int| 0 <= i <= j < list.len() ==> text_le(#[trigger] list[i], #[trigger] list[j])
}

/// The texts of strings.
pub open spec fn texts(list: Seq<String>) -> Seq<Seq<char>> {
    Seq::new(list.len(), |i: int| list[i]@)
}

/// The names of image files among `names`.
pub open spec fn image_names(names: Seq<Seq<char>>) -> Seq<Seq<char>> {
    names.filter(|n: Seq<char>| type_of_name(n) is Some)
}

/// The name is that of a file in the directory itself: it is not empty, and nothing in it leads
/// elsewhere.
pub open spec fn is_plain_name(name: Seq<char>) -> bool {
    name.len() > 0 && !name.contains('/') && !name.contains('\\') && !occurs(".."@, name)
}

/// The content type of the image file with this name, or the status that a request for it is
/// refused with.
pub open spec fn asset_type_text(name: Seq<char>) -> Result<Seq<char>, u16> {
    if !is_plain_name(name) {
        Err(400)
    } else {
        match type_of_name(name) {
            Some(t) => Ok(t),
            None => Err(404),
        }
    }
}

// ---- Order ----

/// Of two texts one comes before the other.
pub proof fn lemma_text_le_total(a: Seq<char>, b: Seq<char>)
    ensures
        text_le(a, b) || text_le(b, a),
    decreases a.len(),
{
    if a.len() > 0 && b.len() > 0 && a[0] == b[0] {
        lemma_text_le_total(a.drop_first(), b.drop_first());
    }
}

/// What comes before a text comes before all that follow on it.
pub proof fn lemma_text_le_transitive(a: Seq<char>, b: Seq<char>, c: Seq<char>)
    requires
        text_le(a, b),
        text_le(b, c),
    ensures
        text_le(a, c),
    decreases a.len(),
{
    if a.len() > 0 && a[0] == b[0] && b[0] == c[0] {
        lemma_text_le_transitive(a.drop_first(), b.drop_first(), c.drop_first());
    }
}

/// Two texts that each come before the other are the same.
pub proof fn lemma_text_le_antisymmetric(a: Seq<char>, b: Seq<char>)
    requires
        text_le(a, b),
        text_le(b, a),
    ensures
        a == b,
    decreases a.len(),
{
    if a.len() > 0 {
        lemma_text_le_antisymmetric(a.drop_first(), b.drop_first());
        assert(a == seq![a[0]] + a.drop_first());
        assert(b == seq![b[0]] + b.drop_first());
    } else {
        assert(a == b);
    }
}

/// A listing does not depend on the order in which the directory was read: two lists in order
/// with the same texts are the same list.
pub proof fn law_listing_is_unique(x: Seq<Seq<char>>, y: Seq<Seq<char>>)
    requires
        in_order(x),
        in_order(y),
        x.to_multiset() == y.to_multiset(),
    ensures
        x == y,
    decreases x.len(),
{
    broadcast use {
        vstd::seq_lib::group_to_multiset_ensures,
        vstd::multiset::group_multiset_axioms,
    };

    assert(x.len() == x.to_multiset().len());
    assert(y.len() == y.to_multiset().len());
    if x.len() > 0 {
        let a = x.last();
        let b = y.last();
        assert(x.contains(a) && y.contains(b));
        assert(y.to_multiset().count(a) > 0);
        assert(x.to_multiset().count(b) > 0);
        assert(y.contains(a));
        assert(x.contains(b));
        let i = choose|i: int| 0 <= i < y.len() && y[i] == a;
        let j = choose|j: int| 0 <= j < x.len() && x[j] == b;
        assert(text_le(y[i], y[y.len() - 1]));
        assert(text_le(x[j], x[x.len() - 1]));
        lemma_text_le_antisymmetric(a, b);
        vstd::seq_lib::to_multiset_remove(x, x.len() - 1);
        vstd::seq_lib::to_multiset_remove(y, y.len() - 1);
        assert(x.remove(x.len() - 1) == x.drop_last());
        assert(y.remove(y.len() - 1) == y.drop_last());
        law_listing_is_unique(x.drop_last(), y.drop_last());
        assert(x == x.drop_last().push(a));
        assert(y == y.drop_last().push(a));
    } else {
        assert(x == y);
    }
}

/// The texts of strings are those of each of them, in order.
pub proof fn law_texts(list: Seq<String>, i: int)
    requires
        0 <= i < list.len(),
    ensures
        texts(list).len() == list.len(),
        texts(list)[i] == list[i]@,
{
}

/// Which of two texts comes first: by the first character in which they differ, and a text before all
/// that go on from it.
pub proof fn law_order_of_texts(
    common: Seq<char>,
    x: char,
    a: Seq<char>,
    y: char,
    b: Seq<char>,
)
    ensures
        x < y ==> text_le(common + seq![x] + a, common + seq![y] + b) && !text_le(
            common + seq![y] + b,
            common + seq![x] + a,
        ),
        text_le(common, common + a),
        a.len() > 0 ==> !text_le(common + a, common),
    decreases common.len(),
{
    let p = common + seq![x] + a;
    let q = common + seq![y] + b;
    if common.len() == 0 {
        assert(p[0] == x && q[0] == y);
    } else {
        let rest = common.drop_first();
        law_order_of_texts(rest, x, a, y, b);
        assert(p[0] == common[0] && q[0] == common[0]);
        assert(p.drop_first() == rest + seq![x] + a);
        assert(q.drop_first() == rest + seq![y] + b);
        assert((common + a)[0] == common[0]);
        assert((common + a).drop_first() == rest + a);
    }
}

/// A list is in order exactly where each of its texts comes before the next one or is the same.
pub proof fn law_in_order(list: Seq<Seq<char>>)
    ensures
        in_order(list) <==> forall|i: int|
            0 <= i < list.len() - 1 ==> text_le(#[trigger] list[i], list[i + 1]),
{
    if forall|i: int| 0 <= i < list.len() - 1 ==> text_le(#[trigger] list[i], list[i + 1]) {
        assert forall|i: int, j: int| 0 <= i <= j < list.len() implies text_le(
            #[trigger] list[i],
            #[trigger] list[j],
        ) by {
            lemma_in_order_between(list, i, j);
        }
    }
    if in_order(list) {
        assert forall|i: int| 0 <= i < list.len() - 1 implies text_le(
            #[trigger] list[i],
            list[i + 1],
        ) by {}
    }
}

proof fn lemma_in_order_between(list: Seq<Seq<char>>, i: int, j: int)
    requires
        0 <= i <= j < list.len(),
        forall|k: int| 0 <= k < list.len() - 1 ==> text_le(#[trigger] list[k], list[k + 1]),
    ensures
        text_le(list[i], list[j]),
    decreases j - i,
{
    if i == j {
        lemma_text_le_total(list[i], list[i]);
    } else {
        lemma_in_order_between(list, i, j - 1);
        assert(text_le(list[j - 1], list[j - 1 + 1]));
        lemma_text_le_transitive(list[i], list[j - 1], list[j]);
    }
}

/// The images among names are those of the first ones and those of the others; a name on its own is
/// one exactly where it has a type.
pub proof fn law_images_among_names(a: Seq<Seq<char>>, b: Seq<Seq<char>>, name: Seq<char>)
    ensures
        image_names(a + b) == image_names(a) + image_names(b),
        image_names(seq![name]) == (if type_of_name(name) is Some {
            seq![name]
        } else {
            Seq::<Seq<char>>::empty()
        }),
    decreases b.len(),
{
    reveal(Seq::filter);
    let keep = |n: Seq<char>| type_of_name(n) is Some;
    let one = seq![name];
    assert(one.drop_last() == Seq::<Seq<char>>::empty());
    assert(one.drop_last().filter(keep) == Seq::<Seq<char>>::empty());
    assert(one.last() == name);
    assert(image_names(one) == (if type_of_name(name) is Some {
        seq![name]
    } else {
        Seq::<Seq<char>>::empty()
    }));
    if b.len() == 0 {
        assert(a + b == a);
        assert(image_names(b) == Seq::<Seq<char>>::empty());
        assert(image_names(a) + image_names(b) == image_names(a));
    } else {
        law_images_among_names(a, b.drop_last(), name);
        assert((a + b).drop_last() == a + b.drop_last());
        assert((a + b).last() == b.last());
        assert(image_names(a + b) == image_names(a) + image_names(b));
    }
}

/// What a request for a name is answered: status 400 for an empty name and for one with a slash, a
/// backslash or two dots in a row anywhere in it, status 404 for any other that is not that of an
/// image, and the type of the image otherwise.
pub proof fn law_answers_for_names(front: Seq<char>, back: Seq<char>, name: Seq<char>)
    ensures
        asset_type_text(front + seq!['/'] + back) == Err::<Seq<char>, u16>(400),
        asset_type_text(front + seq!['\\'] + back) == Err::<Seq<char>, u16>(400),
        asset_type_text(front + seq!['.', '.'] + back) == Err::<Seq<char>, u16>(400),
        asset_type_text(seq![]) == Err::<Seq<char>, u16>(400),
        name.len() > 0 && !name.contains('/') && !name.contains('\\') && (forall|i: int|
            0 <= i < name.len() - 1 ==> !(#[trigger] name[i] == '.' && name[i + 1] == '.'))
            ==> asset_type_text(name) == (match type_of_name(name) {
            Some(t) => Ok::<Seq<char>, u16>(t),
            None => Err(404),
        }),
{
    reveal_strlit("..");
    let n = front.len() as int;
    assert((front + seq!['/'] + back)[n] == '/');
    assert((front + seq!['\\'] + back)[n] == '\\');
    let dotted = front + seq!['.', '.'] + back;
    assert(".."@ == seq!['.', '.']);
    assert(dotted.subrange(n, n + 2) == ".."@);
    assert(occurs_at(".."@, dotted, n));
    if forall|i: int| 0 <= i < name.len() - 1 ==> !(#[trigger] name[i] == '.' && name[i + 1] == '.') {
        assert forall|i: int| !occurs_at(".."@, name, i) by {
            if occurs_at(".."@, name, i) {
                assert(name.subrange(i, i + 2)[0] == '.');
                assert(name.subrange(i, i + 2)[1] == '.');
                assert(name[i] == '.' && name[i + 1] == '.');
            }
        }
    }
}

/// A name that is served leads nowhere out of the directory.
pub proof fn law_no_way_out(name: Seq<char>)
    requires
        asset_type_text(name) is Ok,
    ensures
        !name.contains('/'),
        !name.contains('\\'),
        !occurs(".."@, name),
{
}

/// Every listed name that is a plain one is served.
pub proof fn law_listed_names_are_served(names: Seq<Seq<char>>, name: Seq<char>)
    requires
        image_names(names).contains(name),
        is_plain_name(name),
    ensures
        asset_type_text(name) is Ok,
{
    broadcast use vstd::seq_lib::group_filter_ensures;

    let kept = image_names(names);
    let i = choose|i: int| 0 <= i < kept.len() && kept[i] == name;
    assert(type_of_name(kept[i]) is Some);
}

// ---- Functions ----

/// Whether `a` comes before `b` or is the same.
fn comes_first(a: &str, b: &str) -> (r: bool)
    ensures
        r == text_le(a@, b@),
{
    let x = chars_of(a);
    let y = chars_of(b);
    let mut i: usize = 0;
    assert(x@.skip(0) == x@);
    assert(y@.skip(0) == y@);
    while i < x.len()
        invariant
            x@ == a@,
            y@ == b@,
            i <= x@.len(),
            i <= y@.len(),
            text_le(x@, y@) == text_le(x@.skip(i as int), y@.skip(i as int)),
        decreases x@.len() - i,
    {
        if i == y.len() {
            return false;
        }
        if x[i] != y[i] {
            return x[i] < y[i];
        }
        assert(x@.skip(i as int).drop_first() == x@.skip(i as int + 1));
        assert(y@.skip(i as int).drop_first() == y@.skip(i as int + 1));
        i = i + 1;
    }
    true
}

/// Puts a name into a list in order.
fn insert_name(list: &mut Vec<String>, name: String)
    requires
        in_order(texts(old(list)@)),
    ensures
        in_order(texts(final(list)@)),
        texts(final(list)@).to_multiset() == texts(old(list)@).to_multiset().insert(name@),
{
    broadcast use vstd::seq_lib::group_to_multiset_ensures;

    let ghost before = texts(list@);
    let mut i: usize = 0;
    while i < list.len() && comes_first(list[i].as_str(), name.as_str())
        invariant
            i <= list@.len(),
            texts(list@) == before,
            forall|j: int| 0 <= j < i ==> text_le(#[trigger] before[j], name@),
        decreases list@.len() - i,
    {
        assert(before[i as int] == list@[i as int]@);
        i = i + 1;
    }
    proof {
        if i < before.len() {
            assert(before[i as int] == list@[i as int]@);
            lemma_text_le_total(name@, before[i as int]);
        }
    }
    let ghost n = name@;
    list.insert(i, name);
    let ghost after = texts(list@);
    proof {
        assert(after == before.insert(i as int, n));
        assert(after.to_multiset() == before.to_multiset().insert(n)) by {
            vstd::seq_lib::to_multiset_insert(before, i as int, n);
        }
        assert forall|p: int, q: int| 0 <= p <= q < after.len() implies text_le(
            #[trigger] after[p],
            #[trigger] after[q],
        ) by {
            if p < i && q < i {
                assert(after[p] == before[p] && after[q] == before[q]);
            } else if p < i && q == i {
                assert(after[p] == before[p]);
            } else if p < i {
                assert(after[p] == before[p] && after[q] == before[q - 1]);
            } else if p == i && q == i {
                lemma_text_le_total(n, n);
            } else if p == i {
                assert(after[q] == before[q - 1]);
                assert(text_le(before[i as int], before[q - 1]));
                lemma_text_le_transitive(n, before[i as int], before[q - 1]);
            } else {
                assert(after[p] == before[p - 1] && after[q] == before[q - 1]);
            }
        }
    }
}

/// The names of the image files among the names of a directory, in order.
pub fn list_assets(names: Vec<String>) -> (r: Vec<String>)
    ensures
        in_order(texts(r@)),
        texts(r@).to_multiset() == image_names(texts(names@)).to_multiset(),
{
    broadcast use vstd::seq_lib::group_to_multiset_ensures;

    let ghost all = texts(names@);
    let ghost keep = |n: Seq<char>| type_of_name(n) is Some;
    let mut out: Vec<String> = Vec::new();
    let mut i: usize = 0;
    assert(all.take(0).filter(keep) == Seq::<Seq<char>>::empty()) by {
        reveal(Seq::filter);
    }
    assert(texts(out@) == Seq::<Seq<char>>::empty());
    while i < names.len()
        invariant
            i <= names@.len(),
            all == texts(names@),
            keep == |n: Seq<char>| type_of_name(n) is Some,
            in_order(texts(out@)),
            texts(out@).to_multiset() == all.take(i as int).filter(keep).to_multiset(),
        decreases names@.len() - i,
    {
        let ghost front = all.take(i as int);
        assert(all.take(i as int + 1) == front.push(all[i as int]));
        assert(all[i as int] == names@[i as int]@);
        proof {
            let next = all.take(i as int + 1);
            assert(next.drop_last() == front);
            assert(next.filter(keep) == (if keep(all[i as int]) {
                front.filter(keep).push(all[i as int])
            } else {
                front.filter(keep)
            })) by {
                reveal(Seq::filter);
            }
            vstd::seq_lib::to_multiset_build(front.filter(keep), all[i as int]);
        }
        if ctype_for_filename(names[i].as_str()).is_some() {
            let name = names[i].clone();
            insert_name(&mut out, name);
        }
        i = i + 1;
    }
    assert(all.take(i as int) == all);
    out
}

/// The content type of the image file with this name, or the status that a request for it is
/// refused with: 400 where the name is not a plain one, 404 where it is not that of an image.
pub fn asset_type(name: &str) -> (r: Result<&'static str, u16>)
    ensures
        (match r {
            Ok(t) => Ok(t@),
            Err(status) => Err(status),
        }) == asset_type_text(name@),
{
    let a = chars_of(name);
    if a.len() == 0 || member(a.as_slice(), '/') || member(a.as_slice(), '\\') || holds(
        a.as_slice(),
        "..",
    ) {
        return Err(400);
    }
    match ctype_for_filename(name) {
        Some(t) => Ok(t),
        None => Err(404),
    }
}

/// The answer with an image file, given what was read of it.
pub fn asset_response(ctype: &'static str, file: Option<Vec<u8>>) -> (r: Reply)
    ensures
        r@ == (match file {
            Some(bytes) => image_reply(bytes@, ctype@),
            None => bare_reply(404),
        }),
{
    match file {
        Some(bytes) => icon_response(bytes, ctype),
        None => status_response(404),
    }
}

} // verus!
