//! Image types: by file name, by content type, by the first bytes, and whether bytes can be an
//! image at all.

use vstd::prelude::*;
use vstd::slice::slice_subrange;

use crate::text::{
    chars_of, ends_with, find_any, holds, is_text, lower_all, occurs, position_any, text_of,
    to_lower_all, trim, trimmed,
};

verus! {

/// The file name, in any case, ends with `suffix`.
pub open spec fn named(name: Seq<char>, suffix: Seq<char>) -> bool {
    suffix.is_suffix_of(lower_all(name))
}

/// The content type of an image file by the ending of its name.
pub open spec fn type_of_name(name: Seq<char>) -> Option<Seq<char>> {
    if named(name, ".svg"@) {
        Some("image/svg+xml"@)
    } else if named(name, ".png"@) {
        Some("image/png"@)
    } else if named(name, ".jpg"@) || named(name, ".jpeg"@) {
        Some("image/jpeg"@)
    } else if named(name, ".webp"@) {
        Some("image/webp"@)
    } else if named(name, ".gif"@) {
        Some("image/gif"@)
    } else if named(name, ".ico"@) {
        Some("image/x-icon"@)
    } else {
        None
    }
}

/// The media type in a content type: what stands before the first semicolon, trimmed, in lower
/// case.
pub open spec fn media_type(content_type: Seq<char>) -> Seq<char> {
    lower_all(trimmed(content_type.take(find_any(content_type, seq![';']))))
}

/// The file extension and the content type for an image type.
pub open spec fn kind_of_type(content_type: Seq<char>) -> Option<(Seq<char>, Seq<char>)> {
    let m = media_type(content_type);
    if m == "image/svg+xml"@ {
        Some(("svg"@, "image/svg+xml"@))
    } else if m == "image/png"@ {
        Some(("png"@, "image/png"@))
    } else if m == "image/webp"@ {
        Some(("webp"@, "image/webp"@))
    } else if m == "image/jpeg"@ || m == "image/jpg"@ {
        Some(("jpg"@, "image/jpeg"@))
    } else if m == "image/gif"@ {
        Some(("gif"@, "image/gif"@))
    } else if m == "image/x-icon"@ || m == "image/vnd.microsoft.icon"@ || m == "image/icon"@ {
        Some(("ico"@, "image/x-icon"@))
    } else {
        None
    }
}

/// A space, tab, line feed, form feed or carriage return.
pub open spec fn is_blank(b: u8) -> bool {
    b == 0x20 || b == 0x9 || b == 0xa || b == 0xc || b == 0xd
}

/// `A` to `Z` become `a` to `z`; every other byte stays.
pub open spec fn lower_byte(b: u8) -> u8 {
    if 0x41 <= b <= 0x5a {
        (b + 32) as u8
    } else {
        b
    }
}

/// How many blank bytes stand at the front.
pub open spec fn blank_len(bytes: Seq<u8>) -> int
    decreases bytes.len(),
{
    if bytes.len() > 0 && is_blank(bytes.first()) {
        1 + blank_len(bytes.drop_first())
    } else {
        0
    }
}

/// The bytes from the first one that is not blank; all of them where every one is blank.
pub open spec fn content(bytes: Seq<u8>) -> Seq<u8> {
    if blank_len(bytes) == bytes.len() {
        bytes
    } else {
        bytes.skip(blank_len(bytes))
    }
}

/// `<svg` in bytes.
pub open spec fn svg_mark() -> Seq<u8> {
    seq![0x3cu8, 0x73, 0x76, 0x67]
}

/// `<?xml` in bytes.
pub open spec fn xml_mark() -> Seq<u8> {
    seq![0x3cu8, 0x3f, 0x78, 0x6d, 0x6c]
}

/// The bytes in lower case begin with `mark`.
pub open spec fn opens_with(bytes: Seq<u8>, mark: Seq<u8>) -> bool {
    bytes.len() >= mark.len() && forall|i: int|
        0 <= i < mark.len() ==> lower_byte(#[trigger] bytes[i]) == mark[i]
}

/// `svg` in bytes.
pub open spec fn svg_name() -> Seq<u8> {
    seq![0x73u8, 0x76, 0x67]
}

/// `html` in bytes.
pub open spec fn html_name() -> Seq<u8> {
    seq![0x68u8, 0x74, 0x6d, 0x6c]
}

/// `<!--` in bytes.
pub open spec fn comment_mark() -> Seq<u8> {
    seq![0x3cu8, 0x21, 0x2d, 0x2d]
}

/// `-->` in bytes.
pub open spec fn comment_end() -> Seq<u8> {
    seq![0x2du8, 0x2d, 0x3e]
}

/// How many bytes there are up to the end of a comment, its mark among them; all of them where the
/// comment has no end.
pub open spec fn comment_len(bytes: Seq<u8>) -> int
    decreases bytes.len(),
{
    if bytes.len() == 0 {
        0
    } else if opens_with(bytes, comment_end()) {
        3
    } else {
        1 + comment_len(bytes.drop_first())
    }
}

/// The byte ends the name of an element: it is blank, `>`, `/` or `<`.
pub open spec fn ends_name(b: u8) -> bool {
    is_blank(b) || b == 0x3e || b == 0x2f || b == 0x3c
}

/// How many bytes stand before the first one that ends a name or is a colon.
pub open spec fn name_part_len(bytes: Seq<u8>) -> int
    decreases bytes.len(),
{
    if bytes.len() == 0 || ends_name(bytes.first()) || bytes.first() == 0x3a {
        0
    } else {
        1 + name_part_len(bytes.drop_first())
    }
}

/// The name of an element without its prefix, and what follows it, given what follows the `<`. A
/// declaration or an instruction has no prefix.
pub open spec fn local_name(name: Seq<u8>) -> Seq<u8> {
    let k = name_part_len(name);
    if name.len() > 0 && name[0] != 0x21 && name[0] != 0x3f && 0 < k < name.len() && name[k] == 0x3a {
        name.skip(k + 1)
    } else {
        name
    }
}

/// An SVG element is opened here, with or without a prefix.
pub open spec fn opens_svg(bytes: Seq<u8>) -> bool {
    bytes.len() > 0 && bytes[0] == 0x3c && (opens_with(bytes.skip(1), svg_name()) || opens_with(
        local_name(bytes.skip(1)),
        svg_name(),
    ))
}

/// An HTML element is opened here, with or without a prefix.
pub open spec fn opens_html(bytes: Seq<u8>) -> bool {
    let name = local_name(bytes.skip(1));
    bytes.len() > 0 && bytes[0] == 0x3c && opens_with(name, html_name()) && (name.len() == 4
        || ends_name(name[4]))
}

/// An SVG element is opened in the bytes, and no HTML element before it. What stands in comments
/// does not count.
pub open spec fn holds_svg(bytes: Seq<u8>) -> bool
    decreases bytes.len(),
{
    if bytes.len() == 0 {
        false
    } else if opens_with(bytes, comment_mark()) {
        let k = 4 + comment_len(bytes.skip(4));
        0 < k <= bytes.len() && holds_svg(bytes.skip(k))
    } else if opens_svg(bytes) {
        true
    } else if opens_html(bytes) {
        false
    } else {
        holds_svg(bytes.drop_first())
    }
}

/// The bytes can be an image: at least 32 of them, and where they open with `<`, they open as an
/// SVG or XML document and the content type names SVG, or, where there is none, the bytes do.
pub open spec fn image_like(bytes: Seq<u8>, content_type: Option<Seq<char>>) -> bool {
    let head = content(bytes);
    &&& bytes.len() >= 32
    &&& head[0] == 0x3c ==> {
        &&& opens_with(head, svg_mark()) || opens_with(head, xml_mark())
        &&& match content_type {
            Some(c) => occurs("svg"@, c),
            None => holds_svg(head),
        }
    }
}

/// The bytes open as a page of HTML does, with a declaration or with a tag such as `html`.
pub open spec fn opens_as_page(bytes: Seq<u8>) -> bool {
    let head = content(bytes);
    head.len() >= 2 && head[0] == 0x3c && (head[1] == 0x21 || head[1] == 0x68 || head[1] == 0x48)
}

/// The file extension and the content type by the first bytes; an icon where they tell nothing.
pub open spec fn kind_of_bytes(b: Seq<u8>) -> (Seq<char>, Seq<char>) {
    if seq![0x89u8, 0x50, 0x4e, 0x47].is_prefix_of(b) {
        ("png"@, "image/png"@)
    } else if seq![0xffu8, 0xd8, 0xff].is_prefix_of(b) {
        ("jpg"@, "image/jpeg"@)
    } else if seq![0x47u8, 0x49, 0x46, 0x38].is_prefix_of(b) {
        ("gif"@, "image/gif"@)
    } else if seq![0x52u8, 0x49, 0x46, 0x46].is_prefix_of(b) && b.len() > 11 && b.subrange(8, 12)
        == seq![0x57u8, 0x45, 0x42, 0x50] {
        ("webp"@, "image/webp"@)
    } else if seq![0u8, 0, 1, 0].is_prefix_of(b) {
        ("ico"@, "image/x-icon"@)
    } else if svg_mark().is_prefix_of(b) || xml_mark().is_prefix_of(b) {
        ("svg"@, "image/svg+xml"@)
    } else {
        ("ico"@, "image/x-icon"@)
    }
}

/// The kind of a response: by its content type where that is an image type, else by its bytes.
pub open spec fn kind_of(content_type: Seq<char>, bytes: Seq<u8>) -> (Seq<char>, Seq<char>) {
    match kind_of_type(content_type) {
        Some(kind) => kind,
        None => kind_of_bytes(bytes),
    }
}

/// The texts of an optional pair are those of the pair.
pub proof fn law_optional_pairs(a: &str, b: &str)
    ensures
        kind_text(Some((a, b))) == Some((a@, b@)),
        kind_text(None) is None,
{
}

/// A page of HTML is no image, whatever its content type says.
pub proof fn law_html_is_no_image(bytes: Seq<u8>, content_type: Option<Seq<char>>)
    requires
        opens_as_page(bytes),
    ensures
        !image_like(bytes, content_type),
{
    let head = content(bytes);
    if opens_with(head, svg_mark()) {
        assert(lower_byte(head[1]) == svg_mark()[1]);
    }
    if opens_with(head, xml_mark()) {
        assert(lower_byte(head[1]) == xml_mark()[1]);
    }
}

/// A document that only its head takes for XML is no image where nothing says that it is SVG: its
/// content type does not, and neither do its bytes.
pub proof fn law_xml_alone_is_no_image(bytes: Seq<u8>, content_type: Option<Seq<char>>)
    requires
        content(bytes)[0] == 0x3c,
        content_type matches Some(c) ==> !occurs("svg"@, c),
        content_type is None ==> !holds_svg(content(bytes)),
    ensures
        !image_like(bytes, content_type),
{
}

/// A document that opens with an SVG element shows by that alone what it is.
pub proof fn law_svg_shows_itself(bytes: Seq<u8>)
    requires
        opens_with(bytes, svg_mark()),
    ensures
        holds_svg(bytes),
{
    assert(lower_byte(bytes[0]) == svg_mark()[0]);
    assert(lower_byte(bytes[1]) == svg_mark()[1]);
    assert(lower_byte(bytes[2]) == svg_mark()[2]);
    assert(lower_byte(bytes[3]) == svg_mark()[3]);
    let name = bytes.skip(1);
    assert(forall|i: int| 0 <= i < 3 ==> name[i] == bytes[i + 1]);
    if opens_with(bytes, comment_mark()) {
        assert(lower_byte(bytes[1]) == comment_mark()[1]);
    }
}

/// A comment in front makes no difference to what the bytes show.
pub proof fn law_comments_do_not_count(inside: Seq<u8>, bytes: Seq<u8>)
    requires
        inside.len() >= 3,
        comment_len(inside) == inside.len(),
        opens_with(inside.skip(inside.len() - 3), comment_end()),
    ensures
        holds_svg(comment_mark() + inside + bytes) == holds_svg(bytes),
{
    let all = comment_mark() + inside + bytes;
    assert forall|i: int| 0 <= i < 4 implies lower_byte(#[trigger] all[i]) == comment_mark()[i] by {
        assert(all[i] == comment_mark()[i]);
    }
    assert(all.skip(4) == inside + bytes);
    lemma_comment_then(inside, bytes);
    assert(all.skip(4 + inside.len() as int) == bytes);
}

/// What follows the end of a comment does not change where it ends.
proof fn lemma_comment_then(inside: Seq<u8>, bytes: Seq<u8>)
    requires
        inside.len() >= 3,
        comment_len(inside) == inside.len(),
        opens_with(inside.skip(inside.len() - 3), comment_end()),
    ensures
        comment_len(inside + bytes) == inside.len(),
    decreases inside.len(),
{
    let all = inside + bytes;
    if opens_with(inside, comment_end()) {
        assert forall|i: int| 0 <= i < 3 implies lower_byte(#[trigger] all[i]) == comment_end()[i] by {
            assert(all[i] == inside[i]);
        }
    } else {
        let rest = inside.drop_first();
        if inside.len() == 3 {
            assert(inside.skip(0) == inside);
        }
        assert(rest.skip(rest.len() - 3) == inside.skip(inside.len() - 3));
        assert(all.drop_first() == rest + bytes);
        lemma_comment_then(rest, bytes);
        if opens_with(all, comment_end()) {
            assert forall|i: int| 0 <= i < 3 implies lower_byte(#[trigger] inside[i])
                == comment_end()[i] by {
                assert(all[i] == inside[i]);
            }
        }
    }
}

/// The ending of a file name, in any case of letters and behind any stem, tells the type of the
/// image; a name with no such ending is that of no image.
#[verifier::rlimit(50)]
pub proof fn law_types_by_ending(stem: Seq<char>, ending: Seq<char>)
    ensures
        lower_all(ending) == ".svg"@ ==> type_of_name(stem + ending) == Some("image/svg+xml"@),
        lower_all(ending) == ".png"@ ==> type_of_name(stem + ending) == Some("image/png"@),
        lower_all(ending) == ".jpg"@ ==> type_of_name(stem + ending) == Some("image/jpeg"@),
        lower_all(ending) == ".jpeg"@ ==> type_of_name(stem + ending) == Some("image/jpeg"@),
        lower_all(ending) == ".webp"@ ==> type_of_name(stem + ending) == Some("image/webp"@),
        lower_all(ending) == ".gif"@ ==> type_of_name(stem + ending) == Some("image/gif"@),
        lower_all(ending) == ".ico"@ ==> type_of_name(stem + ending) == Some("image/x-icon"@),
        type_of_name(stem) is Some ==> exists|front: Seq<char>, back: Seq<char>|
            {
                &&& stem == #[trigger] (front + back)
                &&& {
                    ||| lower_all(back) == ".svg"@
                    ||| lower_all(back) == ".png"@
                    ||| lower_all(back) == ".jpg"@
                    ||| lower_all(back) == ".jpeg"@
                    ||| lower_all(back) == ".webp"@
                    ||| lower_all(back) == ".gif"@
                    ||| lower_all(back) == ".ico"@
                }
            },
{
    reveal_strlit(".svg");
    reveal_strlit(".png");
    reveal_strlit(".webp");
    reveal_strlit(".jpg");
    reveal_strlit(".jpeg");
    reveal_strlit(".gif");
    reveal_strlit(".ico");
    let low = lower_all(stem + ending);
    let back = lower_all(ending);
    assert(low == lower_all(stem) + back);
    let n = low.len() as int;
    let m = back.len() as int;
    if m >= 3 {
        assert(low.subrange(n - m, n) == back);
        assert(low[n - 1] == back[m - 1]);
        assert(low[n - 2] == back[m - 2]);
        assert(low[n - 3] == back[m - 3]);
        lemma_ending(low, ".svg"@);
        lemma_ending(low, ".png"@);
        lemma_ending(low, ".jpg"@);
        lemma_ending(low, ".jpeg"@);
        lemma_ending(low, ".webp"@);
        lemma_ending(low, ".gif"@);
        lemma_ending(low, ".ico"@);
    }
    if type_of_name(stem) is Some {
        lemma_has_ending(stem, ".svg"@);
        lemma_has_ending(stem, ".png"@);
        lemma_has_ending(stem, ".jpg"@);
        lemma_has_ending(stem, ".jpeg"@);
        lemma_has_ending(stem, ".webp"@);
        lemma_has_ending(stem, ".gif"@);
        lemma_has_ending(stem, ".ico"@);
    }
}

proof fn lemma_has_ending(name: Seq<char>, suffix: Seq<char>)
    ensures
        named(name, suffix) ==> exists|front: Seq<char>, back: Seq<char>|
            name == #[trigger] (front + back) && lower_all(back) == suffix,
{
    if named(name, suffix) {
        let low = lower_all(name);
        let k = name.len() - suffix.len();
        let front = name.take(k);
        let back = name.skip(k);
        assert(name == front + back);
        assert(low.subrange(k, low.len() as int) == suffix);
        assert(lower_all(back) == low.subrange(k, low.len() as int));
    }
}

/// The media type in a content type is what stands between white characters before the first
/// semicolon, and in any case of letters it names the extension and the type of an image, or of
/// none.
pub proof fn law_image_types(a: Seq<char>, t: Seq<char>, b: Seq<char>, rest: Seq<char>)
    requires
        forall|i: int| 0 <= i < a.len() ==> crate::text::is_white(#[trigger] a[i]),
        forall|i: int| 0 <= i < b.len() ==> crate::text::is_white(#[trigger] b[i]),
        t.len() > 0 ==> !crate::text::is_white(t.first()) && !crate::text::is_white(t.last()),
        !t.contains(';'),
        rest.len() > 0 ==> rest.first() == ';',
    ensures
        ({
            let kind = kind_of_type(a + t + b + rest);
            let m = lower_all(t);
            &&& m == "image/svg+xml"@ ==> kind == Some(("svg"@, "image/svg+xml"@))
            &&& m == "image/png"@ ==> kind == Some(("png"@, "image/png"@))
            &&& m == "image/webp"@ ==> kind == Some(("webp"@, "image/webp"@))
            &&& m == "image/jpeg"@ || m == "image/jpg"@ ==> kind == Some(("jpg"@, "image/jpeg"@))
            &&& m == "image/gif"@ ==> kind == Some(("gif"@, "image/gif"@))
            &&& m == "image/x-icon"@ || m == "image/vnd.microsoft.icon"@ || m == "image/icon"@ ==> kind
                == Some(("ico"@, "image/x-icon"@))
            &&& kind is Some ==> m == "image/svg+xml"@ || m == "image/png"@ || m == "image/webp"@ || m
                == "image/jpeg"@ || m == "image/jpg"@ || m == "image/gif"@ || m == "image/x-icon"@ || m
                == "image/vnd.microsoft.icon"@ || m == "image/icon"@
        }),
{
    let front = a + t + b;
    let whole = front + rest;
    let stop = seq![';'];
    assert(stop[0] == ';');
    assert forall|i: int| 0 <= i < front.len() implies !stop.contains(#[trigger] front[i]) by {
        if i < a.len() {
            assert(front[i] == a[i]);
        } else if i < a.len() + t.len() {
            assert(front[i] == t[i - a.len()]);
            assert(t.contains(t[i - a.len()]));
        } else {
            assert(front[i] == b[i - a.len() - t.len()]);
        }
    }
    crate::text::law_find_any(front, rest, stop);
    assert(whole.take(front.len() as int) == front);
    crate::text::law_trimmed_is(a, t, b);
    lemma_type_names();
}

/// The names of the image types differ from each other.
proof fn lemma_type_names()
    ensures
        "image/svg+xml"@ != "image/png"@,
        "image/svg+xml"@ != "image/webp"@,
        "image/svg+xml"@ != "image/jpeg"@,
        "image/svg+xml"@ != "image/jpg"@,
        "image/svg+xml"@ != "image/gif"@,
        "image/svg+xml"@ != "image/x-icon"@,
        "image/svg+xml"@ != "image/vnd.microsoft.icon"@,
        "image/svg+xml"@ != "image/icon"@,
        "image/png"@ != "image/webp"@,
        "image/png"@ != "image/jpeg"@,
        "image/png"@ != "image/jpg"@,
        "image/png"@ != "image/gif"@,
        "image/png"@ != "image/x-icon"@,
        "image/png"@ != "image/vnd.microsoft.icon"@,
        "image/png"@ != "image/icon"@,
        "image/webp"@ != "image/jpeg"@,
        "image/webp"@ != "image/jpg"@,
        "image/webp"@ != "image/gif"@,
        "image/webp"@ != "image/x-icon"@,
        "image/webp"@ != "image/vnd.microsoft.icon"@,
        "image/webp"@ != "image/icon"@,
        "image/gif"@ != "image/jpeg"@,
        "image/gif"@ != "image/jpg"@,
        "image/gif"@ != "image/x-icon"@,
        "image/gif"@ != "image/vnd.microsoft.icon"@,
        "image/gif"@ != "image/icon"@,
        "image/jpeg"@ != "image/x-icon"@,
        "image/jpeg"@ != "image/vnd.microsoft.icon"@,
        "image/jpeg"@ != "image/icon"@,
        "image/jpg"@ != "image/x-icon"@,
        "image/jpg"@ != "image/vnd.microsoft.icon"@,
        "image/jpg"@ != "image/icon"@,
{
    reveal_strlit("image/svg+xml");
    reveal_strlit("image/png");
    reveal_strlit("image/webp");
    reveal_strlit("image/jpeg");
    reveal_strlit("image/jpg");
    reveal_strlit("image/gif");
    reveal_strlit("image/x-icon");
    reveal_strlit("image/vnd.microsoft.icon");
    reveal_strlit("image/icon");
    assert("image/svg+xml"@[6] == 's' && "image/png"@[6] == 'p' && "image/webp"@[6] == 'w');
    assert("image/jpeg"@[6] == 'j' && "image/jpg"@[6] == 'j' && "image/gif"@[6] == 'g');
    assert("image/x-icon"@[6] == 'x' && "image/vnd.microsoft.icon"@[6] == 'v' && "image/icon"@[6]
        == 'i');
}

/// The first bytes tell the type of an image, whatever follows them.
pub proof fn law_first_bytes(four: Seq<u8>, rest: Seq<u8>)
    requires
        four.len() == 4,
    ensures
        kind_of_bytes(seq![0x89u8, 0x50, 0x4e, 0x47] + rest) == ("png"@, "image/png"@),
        kind_of_bytes(seq![0xffu8, 0xd8, 0xff] + rest) == ("jpg"@, "image/jpeg"@),
        kind_of_bytes(seq![0x47u8, 0x49, 0x46, 0x38] + rest) == ("gif"@, "image/gif"@),
        kind_of_bytes(
            seq![0x52u8, 0x49, 0x46, 0x46] + four + seq![0x57u8, 0x45, 0x42, 0x50] + rest,
        ) == ("webp"@, "image/webp"@),
        kind_of_bytes(seq![0u8, 0, 1, 0] + rest) == ("ico"@, "image/x-icon"@),
        kind_of_bytes(seq![0x3cu8, 0x73, 0x76, 0x67] + rest) == ("svg"@, "image/svg+xml"@),
        kind_of_bytes(seq![0x3cu8, 0x3f, 0x78, 0x6d, 0x6c] + rest) == ("svg"@, "image/svg+xml"@),
{
    lemma_begins_with(seq![0x89u8, 0x50, 0x4e, 0x47], rest);
    lemma_begins_with(seq![0xffu8, 0xd8, 0xff], rest);
    lemma_begins_with(seq![0x47u8, 0x49, 0x46, 0x38], rest);
    lemma_begins_with(seq![0u8, 0, 1, 0], rest);
    lemma_begins_with(seq![0x3cu8, 0x73, 0x76, 0x67], rest);
    lemma_begins_with(seq![0x3cu8, 0x3f, 0x78, 0x6d, 0x6c], rest);
    let w = seq![0x52u8, 0x49, 0x46, 0x46] + four + seq![0x57u8, 0x45, 0x42, 0x50] + rest;
    lemma_begins_with(
        seq![0x52u8, 0x49, 0x46, 0x46],
        four + seq![0x57u8, 0x45, 0x42, 0x50] + rest,
    );
    assert(w == seq![0x52u8, 0x49, 0x46, 0x46] + (four + seq![0x57u8, 0x45, 0x42, 0x50] + rest));
    assert(w.subrange(8, 12) == seq![0x57u8, 0x45, 0x42, 0x50]);
}

proof fn lemma_begins_with(mark: Seq<u8>, rest: Seq<u8>)
    requires
        mark.len() >= 3,
    ensures
        mark.is_prefix_of(mark + rest),
        forall|other: Seq<u8>|
            other.len() >= 1 && other[0] != mark[0] ==> !(#[trigger] other.is_prefix_of(mark + rest)),
        forall|other: Seq<u8>|
            other.len() >= 2 && other[1] != mark[1] ==> !(#[trigger] other.is_prefix_of(mark + rest)),
{
    let all = mark + rest;
    assert(all.subrange(0, mark.len() as int) == mark);
    assert forall|other: Seq<u8>| other.len() >= 1 && other[0] != mark[0] implies !(
    #[trigger] other.is_prefix_of(all)) by {
        if other.is_prefix_of(all) {
            assert(all.subrange(0, other.len() as int)[0] == other[0]);
        }
    }
    assert forall|other: Seq<u8>| other.len() >= 2 && other[1] != mark[1] implies !(
    #[trigger] other.is_prefix_of(all)) by {
        if other.is_prefix_of(all) {
            assert(all.subrange(0, other.len() as int)[1] == other[1]);
        }
    }
}

/// Bytes that begin as none of these images does are taken for an icon.
pub proof fn law_other_bytes(b: Seq<u8>)
    requires
        !seq![0x89u8, 0x50, 0x4e, 0x47].is_prefix_of(b),
        !seq![0xffu8, 0xd8, 0xff].is_prefix_of(b),
        !seq![0x47u8, 0x49, 0x46, 0x38].is_prefix_of(b),
        seq![0x52u8, 0x49, 0x46, 0x46].is_prefix_of(b) ==> b.len() < 12 || b.subrange(8, 12)
            != seq![0x57u8, 0x45, 0x42, 0x50],
        !seq![0x3cu8, 0x73, 0x76, 0x67].is_prefix_of(b),
        !seq![0x3cu8, 0x3f, 0x78, 0x6d, 0x6c].is_prefix_of(b),
    ensures
        kind_of_bytes(b) == ("ico"@, "image/x-icon"@),
{
}

/// The declared type decides where it is an image type, and the bytes where it is none.
pub proof fn law_declared_type_comes_first(content_type: Seq<char>, bytes: Seq<u8>)
    ensures
        kind_of_type(content_type) matches Some(kind) ==> kind_of(content_type, bytes) == kind,
        kind_of_type(content_type) is None ==> kind_of(content_type, bytes) == kind_of_bytes(bytes),
{
}

/// A blank byte: the space, the tab, the line feed, the form feed and the carriage return.
pub proof fn law_blank_bytes(b: u8)
    ensures
        is_blank(b) <==> seq![0x20u8, 0x9, 0xa, 0xc, 0xd].contains(b),
{
    let all = seq![0x20u8, 0x9, 0xa, 0xc, 0xd];
    assert(all[0] == 0x20 && all[1] == 0x9 && all[2] == 0xa && all[3] == 0xc && all[4] == 0xd);
}

/// What can be an image, and what cannot. With blank bytes in front or not, and however long it is
/// from 32 bytes on: a body whose first byte is no `<` can be one under any content type, or none;
/// a body that opens as an SVG or XML document, in any case of letters, can be one under the content
/// types that name SVG and no others; one that opens with another tag cannot. A shorter body never
/// can.
#[verifier::rlimit(50)]
pub proof fn law_what_can_be_an_image(blanks: Seq<u8>, body: Seq<u8>, content_type: Seq<char>)
    requires
        forall|i: int|
            0 <= i < blanks.len() ==> seq![0x20u8, 0x9, 0xa, 0xc, 0xd].contains(#[trigger] blanks[i]),
        body.len() > 0,
        !seq![0x20u8, 0x9, 0xa, 0xc, 0xd].contains(body[0]),
    ensures
        ({
            let all = blanks + body;
            let svg = body.len() >= 4 && body[0] == 0x3c && (body[1] == 0x73 || body[1] == 0x53) && (
            body[2] == 0x76 || body[2] == 0x56) && (body[3] == 0x67 || body[3] == 0x47);
            let xml = body.len() >= 5 && body[0] == 0x3c && body[1] == 0x3f && (body[2] == 0x78
                || body[2] == 0x58) && (body[3] == 0x6d || body[3] == 0x4d) && (body[4] == 0x6c
                || body[4] == 0x4c);
            &&& all.len() < 32 ==> !image_like(all, None) && !image_like(all, Some(content_type))
            &&& all.len() >= 32 && body[0] != 0x3c ==> image_like(all, None) && image_like(
                all,
                Some(content_type),
            )
            &&& all.len() >= 32 && (svg || xml) ==> (image_like(all, Some(content_type)) <==> occurs(
                "svg"@,
                content_type,
            ))
            &&& all.len() >= 32 && svg ==> image_like(all, None)
            &&& all.len() >= 32 && xml ==> (image_like(all, None) <==> holds_svg(body))
            &&& body[0] == 0x3c && !svg && !xml ==> !image_like(all, None) && !image_like(
                all,
                Some(content_type),
            )
        }),
{
    let all = blanks + body;
    assert forall|i: int| 0 <= i < blanks.len() implies is_blank(#[trigger] blanks[i]) by {
        law_blank_bytes(blanks[i]);
    }
    law_blank_bytes(body[0]);
    lemma_content(blanks, body);
    assert(svg_mark()[0] == 0x3c && svg_mark()[1] == 0x73 && svg_mark()[2] == 0x76 && svg_mark()[3]
        == 0x67);
    assert(xml_mark()[0] == 0x3c && xml_mark()[1] == 0x3f && xml_mark()[2] == 0x78 && xml_mark()[3]
        == 0x6d && xml_mark()[4] == 0x6c);
    if opens_with(body, svg_mark()) {
        assert(lower_byte(body[0]) == svg_mark()[0] && lower_byte(body[1]) == svg_mark()[1]);
        assert(lower_byte(body[2]) == svg_mark()[2] && lower_byte(body[3]) == svg_mark()[3]);
        law_svg_shows_itself(body);
    }
    if opens_with(body, xml_mark()) {
        assert(lower_byte(body[0]) == xml_mark()[0] && lower_byte(body[1]) == xml_mark()[1]);
        assert(lower_byte(body[2]) == xml_mark()[2] && lower_byte(body[3]) == xml_mark()[3]);
        assert(lower_byte(body[4]) == xml_mark()[4]);
    }
}

/// A body of blank bytes alone is taken as it is.
pub proof fn law_blank_bodies(blanks: Seq<u8>, content_type: Option<Seq<char>>)
    requires
        forall|i: int|
            0 <= i < blanks.len() ==> seq![0x20u8, 0x9, 0xa, 0xc, 0xd].contains(#[trigger] blanks[i]),
    ensures
        image_like(blanks, content_type) <==> blanks.len() >= 32,
{
    assert forall|i: int| 0 <= i < blanks.len() implies is_blank(#[trigger] blanks[i]) by {
        law_blank_bytes(blanks[i]);
    }
    lemma_blank_len(blanks, seq![]);
    assert(blanks + Seq::<u8>::empty() == blanks);
    if blanks.len() > 0 {
        assert(is_blank(blanks[0]));
    }
}

proof fn lemma_blank_len(blanks: Seq<u8>, body: Seq<u8>)
    requires
        forall|i: int| 0 <= i < blanks.len() ==> is_blank(#[trigger] blanks[i]),
        body.len() > 0 ==> !is_blank(body[0]),
    ensures
        blank_len(blanks + body) == blanks.len(),
    decreases blanks.len(),
{
    let all = blanks + body;
    if blanks.len() > 0 {
        assert(is_blank(blanks[0]));
        assert(all.first() == blanks[0]);
        assert(all.drop_first() == blanks.drop_first() + body);
        lemma_blank_len(blanks.drop_first(), body);
    } else {
        assert(all == body);
    }
}

proof fn lemma_content(blanks: Seq<u8>, body: Seq<u8>)
    requires
        forall|i: int| 0 <= i < blanks.len() ==> is_blank(#[trigger] blanks[i]),
        body.len() > 0,
        !is_blank(body[0]),
    ensures
        content(blanks + body) == body,
{
    lemma_blank_len(blanks, body);
    assert((blanks + body).skip(blanks.len() as int) == body);
}

/// Bytes that open no tag are passed over on the way to an SVG element.
pub proof fn law_text_shows_nothing(text: Seq<u8>, bytes: Seq<u8>)
    requires
        forall|i: int| 0 <= i < text.len() ==> #[trigger] text[i] != 0x3c,
    ensures
        holds_svg(text + bytes) == holds_svg(bytes),
        !holds_svg(text),
    decreases text.len(),
{
    let all = text + bytes;
    if text.len() > 0 {
        assert(text[0] != 0x3c);
        assert(all[0] == text[0]);
        if opens_with(all, comment_mark()) {
            assert(lower_byte(all[0]) == comment_mark()[0]);
        }
        if opens_with(text, comment_mark()) {
            assert(lower_byte(text[0]) == comment_mark()[0]);
        }
        assert(all.drop_first() == text.drop_first() + bytes);
        law_text_shows_nothing(text.drop_first(), bytes);
    } else {
        assert(all == bytes);
    }
}

/// An SVG element shows what the bytes are whether it has a prefix or not, and an HTML element
/// before it that they are something else.
#[verifier::rlimit(50)]
pub proof fn law_elements(prefix: Seq<u8>, rest: Seq<u8>)
    requires
        forall|i: int|
            0 <= i < prefix.len() ==> !seq![
                0x20u8,
                0x9,
                0xa,
                0xc,
                0xd,
                0x3e,
                0x2f,
                0x3c,
                0x3a,
            ].contains(#[trigger] prefix[i]),
        prefix.len() > 0,
        prefix[0] != 0x21,
        prefix[0] != 0x3f,
    ensures
        holds_svg(seq![0x3cu8, 0x73, 0x76, 0x67] + rest),
        holds_svg(seq![0x3cu8] + prefix + seq![0x3au8, 0x73, 0x76, 0x67] + rest),
        !holds_svg(seq![0x3cu8, 0x68, 0x74, 0x6d, 0x6c, 0x3e] + rest),
        !holds_svg(seq![0x3cu8, 0x68, 0x74, 0x6d, 0x6c, 0x20] + rest),
{
    let plain = seq![0x3cu8, 0x73, 0x76, 0x67] + rest;
    assert forall|i: int| 0 <= i < 4 implies lower_byte(#[trigger] plain[i]) == svg_mark()[i] by {
        assert(plain[i] == svg_mark()[i]);
    }
    law_svg_shows_itself(plain);
    let stops = seq![0x20u8, 0x9, 0xa, 0xc, 0xd, 0x3e, 0x2f, 0x3c, 0x3a];
    assert(stops[0] == 0x20 && stops[1] == 0x9 && stops[2] == 0xa && stops[3] == 0xc && stops[4]
        == 0xd && stops[5] == 0x3e && stops[6] == 0x2f && stops[7] == 0x3c && stops[8] == 0x3a);
    let tail = seq![0x3au8, 0x73, 0x76, 0x67] + rest;
    let all = seq![0x3cu8] + prefix + seq![0x3au8, 0x73, 0x76, 0x67] + rest;
    let name = all.skip(1);
    assert(name == prefix + tail);
    assert forall|i: int| 0 <= i < prefix.len() implies !ends_name(#[trigger] prefix[i]) && prefix[i]
        != 0x3a by {
        assert(!stops.contains(prefix[i]));
    }
    lemma_name_part(prefix, tail);
    assert(name[prefix.len() as int] == 0x3a);
    assert(name[0] == prefix[0]);
    let local = local_name(name);
    assert(local == seq![0x73u8, 0x76, 0x67] + rest);
    assert forall|i: int| 0 <= i < 3 implies lower_byte(#[trigger] local[i]) == svg_name()[i] by {
        assert(local[i] == svg_name()[i]);
    }
    assert(all[0] == 0x3c && all[1] == prefix[0]);
    if opens_with(all, comment_mark()) {
        assert(lower_byte(all[1]) == comment_mark()[1]);
    }
    assert(opens_svg(all));
    lemma_html_first(0x3e, rest);
    lemma_html_first(0x20, rest);
}

proof fn lemma_name_part(prefix: Seq<u8>, tail: Seq<u8>)
    requires
        forall|i: int| 0 <= i < prefix.len() ==> !ends_name(#[trigger] prefix[i]) && prefix[i] != 0x3a,
        tail.len() > 0 ==> ends_name(tail[0]) || tail[0] == 0x3a,
    ensures
        name_part_len(prefix + tail) == prefix.len(),
    decreases prefix.len(),
{
    let all = prefix + tail;
    if prefix.len() > 0 {
        assert(!ends_name(prefix[0]));
        assert(all.first() == prefix[0]);
        assert(all.drop_first() == prefix.drop_first() + tail);
        lemma_name_part(prefix.drop_first(), tail);
    } else {
        assert(all == tail);
    }
}

proof fn lemma_html_first(end: u8, rest: Seq<u8>)
    requires
        end == 0x3e || end == 0x20,
    ensures
        !holds_svg(seq![0x3cu8, 0x68, 0x74, 0x6d, 0x6c, end] + rest),
{
    let all = seq![0x3cu8, 0x68, 0x74, 0x6d, 0x6c, end] + rest;
    let name = all.skip(1);
    let html = seq![0x68u8, 0x74, 0x6d, 0x6c];
    let tail = seq![end] + rest;
    assert(name == html + tail);
    assert forall|i: int| 0 <= i < 4 implies !ends_name(#[trigger] html[i]) && html[i] != 0x3a by {}
    lemma_name_part(html, tail);
    assert(name[4] == end);
    assert(local_name(name) == name);
    assert(name[0] == 0x68);
    if opens_with(name, svg_name()) {
        assert(lower_byte(name[0]) == svg_name()[0]);
    }
    assert forall|i: int| 0 <= i < 4 implies lower_byte(#[trigger] name[i]) == html_name()[i] by {
        assert(name[i] == html[i]);
    }
    assert(all[1] == 0x68);
    if opens_with(all, comment_mark()) {
        assert(lower_byte(all[1]) == comment_mark()[1]);
    }
    assert(opens_html(all));
}

/// The extension that a content type gives is one whose file has that content type again.
pub proof fn law_kinds_agree(content_type: Seq<char>, bytes: Seq<u8>, stem: Seq<char>)
    ensures
        ({
            let kind = kind_of(content_type, bytes);
            type_of_name(stem + "."@ + kind.0) == Some(kind.1)
        }),
{
    reveal_strlit(".");
    reveal_strlit("svg");
    reveal_strlit("png");
    reveal_strlit("webp");
    reveal_strlit("jpg");
    reveal_strlit("gif");
    reveal_strlit("ico");
    reveal_strlit(".svg");
    reveal_strlit(".png");
    reveal_strlit(".webp");
    reveal_strlit(".jpg");
    reveal_strlit(".jpeg");
    reveal_strlit(".gif");
    reveal_strlit(".ico");
    let kind = kind_of(content_type, bytes);
    let name = stem + "."@ + kind.0;
    let low = lower_all(name);
    let n = low.len() as int;
    assert(low[n - 1] == kind.0[kind.0.len() - 1]);
    assert(low[n - 2] == kind.0[kind.0.len() - 2]);
    assert(low[n - 3] == kind.0[kind.0.len() - 3]);
    if kind.0 == "webp"@ {
        assert(low.subrange(n - 5, n) == ".webp"@);
    } else if kind.0 == "svg"@ {
        assert(low.subrange(n - 4, n) == ".svg"@);
    } else if kind.0 == "png"@ {
        assert(low.subrange(n - 4, n) == ".png"@);
    } else if kind.0 == "jpg"@ {
        assert(low.subrange(n - 4, n) == ".jpg"@);
    } else if kind.0 == "gif"@ {
        assert(low.subrange(n - 4, n) == ".gif"@);
    } else {
        assert(low.subrange(n - 4, n) == ".ico"@);
    }
    lemma_ending(low, ".svg"@);
    lemma_ending(low, ".png"@);
    lemma_ending(low, ".jpg"@);
    lemma_ending(low, ".jpeg"@);
    lemma_ending(low, ".webp"@);
    lemma_ending(low, ".gif"@);
    lemma_ending(low, ".ico"@);
}

proof fn lemma_ending(s: Seq<char>, suffix: Seq<char>)
    requires
        suffix.len() >= 3,
        s.len() >= 3,
    ensures
        suffix.is_suffix_of(s) ==> s[s.len() - 1] == suffix[suffix.len() - 1] && s[s.len() - 2]
            == suffix[suffix.len() - 2] && s[s.len() - 3] == suffix[suffix.len() - 3],
{
    if suffix.is_suffix_of(s) {
        let tail = s.subrange(s.len() - suffix.len(), s.len() as int);
        assert(tail == suffix);
        assert(tail[suffix.len() - 1] == s[s.len() - 1]);
        assert(tail[suffix.len() - 2] == s[s.len() - 2]);
        assert(tail[suffix.len() - 3] == s[s.len() - 3]);
    }
}

/// The content type of an image file by the ending of its name; `None` for any other file.
pub fn ctype_for_filename(name: &str) -> (r: Option<&'static str>)
    ensures
        text_of(r) == type_of_name(name@),
{
    let a = chars_of(name);
    let lower = to_lower_all(a.as_slice());
    let low = lower.as_slice();
    if ends_with(low, ".svg") {
        Some("image/svg+xml")
    } else if ends_with(low, ".png") {
        Some("image/png")
    } else if ends_with(low, ".jpg") || ends_with(low, ".jpeg") {
        Some("image/jpeg")
    } else if ends_with(low, ".webp") {
        Some("image/webp")
    } else if ends_with(low, ".gif") {
        Some("image/gif")
    } else if ends_with(low, ".ico") {
        Some("image/x-icon")
    } else {
        None
    }
}

/// The text of an optional pair.
pub open spec fn kind_text(o: Option<(&str, &str)>) -> Option<(Seq<char>, Seq<char>)> {
    match o {
        Some(k) => Some((k.0@, k.1@)),
        None => None,
    }
}

/// The file extension and the content type for the content type of a response; `None` where it
/// is no image type that can be kept.
pub fn ctype_kind(ct: &str) -> (r: Option<(&'static str, &'static str)>)
    ensures
        kind_text(r) == kind_of_type(ct@),
{
    let a = chars_of(ct);
    let stops: [char; 1] = [';'];
    assert(stops@ == seq![';']);
    let k: usize = position_any(a.as_slice(), stops.as_slice());
    let first = slice_subrange(a.as_slice(), 0, k);
    assert(first@ == ct@.take(k as int));
    let lower = to_lower_all(trim(first));
    let m = lower.as_slice();
    if is_text(m, "image/svg+xml") {
        Some(("svg", "image/svg+xml"))
    } else if is_text(m, "image/png") {
        Some(("png", "image/png"))
    } else if is_text(m, "image/webp") {
        Some(("webp", "image/webp"))
    } else if is_text(m, "image/jpeg") || is_text(m, "image/jpg") {
        Some(("jpg", "image/jpeg"))
    } else if is_text(m, "image/gif") {
        Some(("gif", "image/gif"))
    } else if is_text(m, "image/x-icon") || is_text(m, "image/vnd.microsoft.icon") || is_text(
        m,
        "image/icon",
    ) {
        Some(("ico", "image/x-icon"))
    } else {
        None
    }
}

/// Whether the byte is a space, tab, line feed, form feed or carriage return.
pub fn blank(b: u8) -> (r: bool)
    ensures
        r == is_blank(b),
{
    b == 0x20 || b == 0x9 || b == 0xa || b == 0xc || b == 0xd
}

/// How many blank bytes stand at the front.
pub fn count_blank(bytes: &[u8]) -> (r: usize)
    ensures
        r as int == blank_len(bytes@),
        r <= bytes@.len(),
{
    let mut i: usize = 0;
    assert(bytes@.skip(0) == bytes@);
    while i < bytes.len() && blank(bytes[i])
        invariant
            i <= bytes@.len(),
            blank_len(bytes@) == i + blank_len(bytes@.skip(i as int)),
        decreases bytes@.len() - i,
    {
        assert(bytes@.skip(i as int).drop_first() == bytes@.skip(i as int + 1));
        i = i + 1;
    }
    i
}

fn opens(bytes: &[u8], mark: &[u8]) -> (r: bool)
    ensures
        r == opens_with(bytes@, mark@),
{
    if bytes.len() < mark.len() {
        return false;
    }
    let mut i: usize = 0;
    while i < mark.len()
        invariant
            mark@.len() <= bytes@.len(),
            i <= mark@.len(),
            forall|j: int| 0 <= j < i ==> lower_byte(#[trigger] bytes@[j]) == mark@[j],
        decreases mark@.len() - i,
    {
        let b: u8 = bytes[i];
        let low: u8 = if 0x41 <= b && b <= 0x5a {
            b + 32
        } else {
            b
        };
        if low != mark[i] {
            assert(lower_byte(bytes@[i as int]) != mark@[i as int]);
            return false;
        }
        i = i + 1;
    }
    true
}

/// How many bytes there are up to the end of a comment.
fn to_comment_end(bytes: &[u8]) -> (r: usize)
    ensures
        r as int == comment_len(bytes@),
        r <= bytes@.len(),
{
    let close: [u8; 3] = [0x2d, 0x2d, 0x3e];
    assert(close@ == comment_end());
    let mut i: usize = 0;
    assert(bytes@.skip(0) == bytes@);
    while i < bytes.len()
        invariant
            close@ == comment_end(),
            i <= bytes@.len(),
            comment_len(bytes@) == i + comment_len(bytes@.skip(i as int)),
        decreases bytes@.len() - i,
    {
        let rest = slice_subrange(bytes, i, bytes.len());
        assert(rest@ == bytes@.skip(i as int));
        if opens(rest, close.as_slice()) {
            return i + 3;
        }
        assert(rest@.drop_first() == bytes@.skip(i as int + 1));
        i = i + 1;
    }
    i
}

/// Whether the byte ends the name of an element.
fn name_end(b: u8) -> (r: bool)
    ensures
        r == ends_name(b),
{
    blank(b) || b == 0x3e || b == 0x2f || b == 0x3c
}

/// How many bytes stand before the first one that ends a name or is a colon.
fn to_name_part_end(bytes: &[u8]) -> (r: usize)
    ensures
        r as int == name_part_len(bytes@),
        r <= bytes@.len(),
{
    let mut i: usize = 0;
    assert(bytes@.skip(0) == bytes@);
    while i < bytes.len() && !name_end(bytes[i]) && bytes[i] != 0x3a
        invariant
            i <= bytes@.len(),
            name_part_len(bytes@) == i + name_part_len(bytes@.skip(i as int)),
        decreases bytes@.len() - i,
    {
        assert(bytes@.skip(i as int).drop_first() == bytes@.skip(i as int + 1));
        i = i + 1;
    }
    i
}

/// The name of an element without its prefix, and what follows it.
fn drop_prefix(name: &[u8]) -> (r: &[u8])
    ensures
        r@ == local_name(name@),
{
    let k: usize = to_name_part_end(name);
    if name.len() > 0 && name[0] != 0x21 && name[0] != 0x3f && 0 < k && k < name.len() && name[k]
        == 0x3a {
        let local = slice_subrange(name, k + 1, name.len());
        assert(local@ == name@.skip(k + 1));
        local
    } else {
        name
    }
}

/// Whether an SVG element is opened in the bytes, and no HTML element before it.
fn finds_svg(bytes: &[u8]) -> (r: bool)
    ensures
        r == holds_svg(bytes@),
{
    let svg: [u8; 3] = [0x73, 0x76, 0x67];
    let html: [u8; 4] = [0x68, 0x74, 0x6d, 0x6c];
    let comment: [u8; 4] = [0x3c, 0x21, 0x2d, 0x2d];
    assert(svg@ == svg_name());
    assert(html@ == html_name());
    assert(comment@ == comment_mark());
    let mut i: usize = 0;
    assert(bytes@.skip(0) == bytes@);
    while i < bytes.len()
        invariant
            svg@ == svg_name(),
            html@ == html_name(),
            comment@ == comment_mark(),
            i <= bytes@.len(),
            holds_svg(bytes@) == holds_svg(bytes@.skip(i as int)),
        decreases bytes@.len() - i,
    {
        let rest = slice_subrange(bytes, i, bytes.len());
        assert(rest@ == bytes@.skip(i as int));
        if opens(rest, comment.as_slice()) {
            let inside = slice_subrange(rest, 4, rest.len());
            assert(inside@ == rest@.skip(4));
            let k: usize = 4 + to_comment_end(inside);
            assert(rest@.skip(k as int) == bytes@.skip(i + k));
            i = i + k;
        } else {
            if rest[0] == 0x3c {
                let name = slice_subrange(rest, 1, rest.len());
                assert(name@ == rest@.skip(1));
                let local = drop_prefix(name);
                if opens(name, svg.as_slice()) || opens(local, svg.as_slice()) {
                    return true;
                }
                if opens(local, html.as_slice()) && (local.len() == 4 || name_end(local[4])) {
                    return false;
                }
            }
            assert(rest@.drop_first() == bytes@.skip(i as int + 1));
            i = i + 1;
        }
    }
    false
}

/// Whether the bytes can be an image. A page of HTML, such as a login page, cannot.
pub fn looks_like_image(bytes: &[u8], ctype: Option<&str>) -> (r: bool)
    ensures
        r == image_like(bytes@, text_of(ctype)),
{
    if bytes.len() < 32 {
        return false;
    }
    let skip: usize = count_blank(bytes);
    let start: usize = if skip == bytes.len() {
        0
    } else {
        skip
    };
    let head = slice_subrange(bytes, start, bytes.len());
    assert(head@ == content(bytes@));
    if head[0] == 0x3c {
        let svg: [u8; 4] = [0x3c, 0x73, 0x76, 0x67];
        let xml: [u8; 5] = [0x3c, 0x3f, 0x78, 0x6d, 0x6c];
        assert(svg@ == svg_mark());
        assert(xml@ == xml_mark());
        if !opens(head, svg.as_slice()) && !opens(head, xml.as_slice()) {
            return false;
        }
        return match ctype {
            Some(c) => {
                let t = chars_of(c);
                holds(t.as_slice(), "svg")
            },
            None => finds_svg(head),
        };
    }
    true
}

fn begins(bytes: &[u8], mark: &[u8]) -> (r: bool)
    ensures
        r == mark@.is_prefix_of(bytes@),
{
    if bytes.len() < mark.len() {
        return false;
    }
    let mut i: usize = 0;
    while i < mark.len()
        invariant
            mark@.len() <= bytes@.len(),
            i <= mark@.len(),
            forall|j: int| 0 <= j < i ==> bytes@[j] == mark@[j],
        decreases mark@.len() - i,
    {
        if bytes[i] != mark[i] {
            assert(bytes@.subrange(0, mark@.len() as int)[i as int] != mark@[i as int]);
            return false;
        }
        i = i + 1;
    }
    assert(bytes@.subrange(0, mark@.len() as int) == mark@);
    true
}

/// The file extension and the content type by the first bytes.
pub fn guess_from_magic(bytes: &[u8]) -> (r: (&'static str, &'static str))
    ensures
        (r.0@, r.1@) == kind_of_bytes(bytes@),
{
    let png: [u8; 4] = [0x89, 0x50, 0x4e, 0x47];
    let jpg: [u8; 3] = [0xff, 0xd8, 0xff];
    let gif: [u8; 4] = [0x47, 0x49, 0x46, 0x38];
    let riff: [u8; 4] = [0x52, 0x49, 0x46, 0x46];
    let webp: [u8; 4] = [0x57, 0x45, 0x42, 0x50];
    let ico: [u8; 4] = [0, 0, 1, 0];
    let svg: [u8; 4] = [0x3c, 0x73, 0x76, 0x67];
    let xml: [u8; 5] = [0x3c, 0x3f, 0x78, 0x6d, 0x6c];
    assert(png@ == seq![0x89u8, 0x50, 0x4e, 0x47]);
    assert(jpg@ == seq![0xffu8, 0xd8, 0xff]);
    assert(gif@ == seq![0x47u8, 0x49, 0x46, 0x38]);
    assert(riff@ == seq![0x52u8, 0x49, 0x46, 0x46]);
    assert(webp@ == seq![0x57u8, 0x45, 0x42, 0x50]);
    assert(ico@ == seq![0u8, 0, 1, 0]);
    assert(svg@ == svg_mark());
    assert(xml@ == xml_mark());
    if begins(bytes, png.as_slice()) {
        return ("png", "image/png");
    }
    if begins(bytes, jpg.as_slice()) {
        return ("jpg", "image/jpeg");
    }
    if begins(bytes, gif.as_slice()) {
        return ("gif", "image/gif");
    }
    if begins(bytes, riff.as_slice()) && bytes.len() > 11 {
        let form = slice_subrange(bytes, 8, 12);
        if begins(form, webp.as_slice()) {
            assert(form@.subrange(0, 4) == form@);
            return ("webp", "image/webp");
        }
        assert(form@.subrange(0, 4) == form@);
    }
    if begins(bytes, ico.as_slice()) {
        return ("ico", "image/x-icon");
    }
    if begins(bytes, svg.as_slice()) || begins(bytes, xml.as_slice()) {
        return ("svg", "image/svg+xml");
    }
    ("ico", "image/x-icon")
}

/// The kind of a response: by its content type where that is an image type, else by its bytes.
pub fn response_kind(content_type: &str, bytes: &[u8]) -> (r: (&'static str, &'static str))
    ensures
        (r.0@, r.1@) == kind_of(content_type@, bytes@),
{
    match ctype_kind(content_type) {
        Some(kind) => kind,
        None => guess_from_magic(bytes),
    }
}

} // verus!
