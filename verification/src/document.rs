//! The track document: the markup it is made of, and the bytes that markup
//! is written as.

use quick_xml::events::BytesDecl;
use quick_xml::events::BytesEnd;
use quick_xml::events::BytesStart;
use quick_xml::events::BytesText;
use quick_xml::events::Event;
use quick_xml::Writer;
use vstd::prelude::*;
use vstd::string::*;
use vstd::utf8::encode_scalar;
use vstd::utf8::encode_utf8;
use vstd::utf8::encode_utf8_valid_utf8;
use vstd::utf8::valid_utf8;
use vstd::utf8::valid_utf8_concat;

verus! {

/// One piece of markup, as the document lists them from front to back.
pub enum Markup {
    /// The XML declaration, with its version and its optional encoding and
    /// standalone attributes.
    Declaration { version: Seq<char>, encoding: Option<Seq<char>>, standalone: Option<Seq<char>> },
    /// The start tag of the element of this name.
    Open(Seq<char>),
    /// Character data, before escaping.
    Text(Seq<char>),
    /// The end tag of the element of this name.
    Close(Seq<char>),
}

/// What stands between `<?` and `?>` in a declaration.
pub open spec fn declaration_text(
    version: Seq<char>,
    encoding: Option<Seq<char>>,
    standalone: Option<Seq<char>>,
) -> Seq<char> {
    let encoding_part = match encoding {
        Some(name) => "\" encoding=\""@ + name,
        None => Seq::empty(),
    };
    let standalone_part = match standalone {
        Some(answer) => "\" standalone=\""@ + answer,
        None => Seq::empty(),
    };
    "xml version=\""@ + version + encoding_part + standalone_part + "\""@
}

/// What one byte of character data is written as: the five markup characters
/// `<` (0x3c), `>` (0x3e), `&` (0x26), `'` (0x27) and `"` (0x22) and the
/// carriage return (0x0d) become entity references, every other byte stays.
pub open spec fn escaped_byte(b: u8) -> Seq<u8> {
    if b == 0x3c {
        encode_utf8("&lt;"@)
    } else if b == 0x3e {
        encode_utf8("&gt;"@)
    } else if b == 0x26 {
        encode_utf8("&amp;"@)
    } else if b == 0x27 {
        encode_utf8("&apos;"@)
    } else if b == 0x22 {
        encode_utf8("&quot;"@)
    } else if b == 0x0d {
        encode_utf8("&#13;"@)
    } else {
        seq![b]
    }
}

/// Character data with each byte escaped.
pub open spec fn escaped(bytes: Seq<u8>) -> Seq<u8>
    decreases bytes.len(),
{
    if bytes.len() == 0 {
        Seq::empty()
    } else {
        escaped(bytes.drop_last()) + escaped_byte(bytes.last())
    }
}

/// The bytes that one piece of markup is written as, in UTF-8.
pub open spec fn markup_bytes(piece: Markup) -> Seq<u8> {
    match piece {
        Markup::Declaration { version, encoding, standalone } => encode_utf8("<?"@) + encode_utf8(
            declaration_text(version, encoding, standalone),
        ) + encode_utf8("?>"@),
        Markup::Open(name) => encode_utf8("<"@) + encode_utf8(name) + encode_utf8(">"@),
        Markup::Text(content) => escaped(encode_utf8(content)),
        Markup::Close(name) => encode_utf8("</"@) + encode_utf8(name) + encode_utf8(">"@),
    }
}

/// The bytes that a run of markup is written as: those of its pieces, one
/// after the other with nothing between them.
pub open spec fn rendered(markup: Seq<Markup>) -> Seq<u8>
    decreases markup.len(),
{
    if markup.len() == 0 {
        Seq::empty()
    } else {
        rendered(markup.drop_last()) + markup_bytes(markup.last())
    }
}

/// Rendering goes piece by piece, so it distributes over concatenation.
pub proof fn lemma_rendered_concat(front: Seq<Markup>, back: Seq<Markup>)
    ensures
        rendered(front + back) == rendered(front) + rendered(back),
    decreases back.len(),
{
    if back.len() == 0 {
        assert(front + back =~= front);
        assert(rendered(front) + rendered(back) =~= rendered(front));
    } else {
        assert((front + back).drop_last() =~= front + back.drop_last());
        lemma_rendered_concat(front, back.drop_last());
        assert(rendered(front + back) =~= rendered(front) + rendered(back));
    }
}

/// A single piece renders as its own bytes.
pub proof fn lemma_rendered_one(piece: Markup)
    ensures
        rendered(seq![piece]) == markup_bytes(piece),
{
    assert(seq![piece].drop_last() =~= Seq::<Markup>::empty());
    assert(rendered(Seq::<Markup>::empty()) =~= Seq::<u8>::empty());
    assert(seq![piece].last() == piece);
    assert(rendered(seq![piece]) =~= markup_bytes(piece));
}

/// The element `name` around `content`: its start tag, the content, its end
/// tag.
pub open spec fn element(name: Seq<char>, content: Seq<Markup>) -> Seq<Markup> {
    seq![Markup::Open(name)] + content + seq![Markup::Close(name)]
}

/// The element `name` holding nothing but the character data `content`.
pub open spec fn text_element(name: Seq<char>, content: Seq<char>) -> Seq<Markup> {
    element(name, seq![Markup::Text(content)])
}

/// The parts one after the other, with `separator` between each two.
pub open spec fn joined(parts: Seq<Seq<char>>, separator: Seq<char>) -> Seq<char>
    decreases parts.len(),
{
    if parts.len() == 0 {
        Seq::empty()
    } else if parts.len() == 1 {
        parts[0]
    } else {
        joined(parts.drop_last(), separator) + separator + parts.last()
    }
}

/// The style of the path: an opaque red line (alpha, blue, green, red) of
/// width 4.
pub open spec fn line_style() -> Seq<Markup> {
    element(
        "Style"@,
        element("LineStyle"@, text_element("color"@, "ff0000ff"@) + text_element("width"@, "4"@)),
    )
}

/// The path itself: clamped to the ground, through the coordinates of
/// `track` in their order, separated by single spaces.
pub open spec fn line_string(track: Seq<Seq<char>>) -> Seq<Markup> {
    element(
        "LineString"@,
        text_element("altitudeMode"@, "clampToGround"@) + text_element(
            "coordinates"@,
            joined(track, " "@),
        ),
    )
}

/// The one placemark of a document: the style, then the path.
pub open spec fn placemark(track: Seq<Seq<char>>) -> Seq<Markup> {
    element("Placemark"@, line_style() + line_string(track))
}

/// The markup of the document for `track`: the declaration, then the root
/// element around the document element, which holds one placemark where the
/// track has a coordinate and nothing where it has none.
pub open spec fn document_markup(track: Seq<Seq<char>>) -> Seq<Markup> {
    seq![
        Markup::Declaration { version: "1.0"@, encoding: Some("UTF-8"@), standalone: None },
    ] + element(
        "kml"@,
        element(
            "Document"@,
            if track.len() == 0 {
                Seq::empty()
            } else {
                placemark(track)
            },
        ),
    )
}

/// The document for `track`, as bytes.
pub open spec fn document_bytes(track: Seq<Seq<char>>) -> Seq<u8> {
    rendered(document_markup(track))
}

/// Escaping goes byte by byte, so it distributes over concatenation.
pub proof fn lemma_escaped_concat(front: Seq<u8>, back: Seq<u8>)
    ensures
        escaped(front + back) == escaped(front) + escaped(back),
    decreases back.len(),
{
    if back.len() == 0 {
        assert(front + back =~= front);
        assert(escaped(front) + escaped(back) =~= escaped(front));
    } else {
        assert((front + back).drop_last() =~= front + back.drop_last());
        lemma_escaped_concat(front, back.drop_last());
        assert(escaped(front + back) =~= escaped(front) + escaped(back));
    }
}

/// Bytes outside ASCII pass through escaping as they are.
proof fn lemma_escaped_keeps_high_bytes(bytes: Seq<u8>)
    requires
        forall|i: int| 0 <= i < bytes.len() ==> #[trigger] bytes[i] >= 0x80,
    ensures
        escaped(bytes) == bytes,
    decreases bytes.len(),
{
    if bytes.len() > 0 {
        lemma_escaped_keeps_high_bytes(bytes.drop_last());
        assert(escaped(bytes) =~= bytes);
    }
}

/// The UTF-8 encoding of one character is a single ASCII byte, or a run of
/// bytes that are all outside ASCII.
proof fn lemma_scalar_bytes(c: char)
    ensures
        encode_scalar(c as u32).len() == 1 || forall|i: int|
            0 <= i < encode_scalar(c as u32).len() ==> #[trigger] encode_scalar(c as u32)[i]
                >= 0x80,
{
    let v = c as u32;
    assert(0xC0 | ((v >> 6) & 0x1F) as u8 >= 0x80) by (bit_vector);
    assert(0xE0 | ((v >> 12) & 0x0F) as u8 >= 0x80) by (bit_vector);
    assert(0xF0 | ((v >> 18) & 0x7) as u8 >= 0x80) by (bit_vector);
    assert(0x80 | (v & 0x3F) as u8 >= 0x80) by (bit_vector);
    assert(0x80 | ((v >> 6) & 0x3F) as u8 >= 0x80) by (bit_vector);
    assert(0x80 | ((v >> 12) & 0x3F) as u8 >= 0x80) by (bit_vector);
}

/// One character of character data is written as valid UTF-8.
proof fn lemma_escaped_scalar_is_utf8(c: char)
    ensures
        valid_utf8(escaped(encode_scalar(c as u32))),
{
    let bytes = encode_scalar(c as u32);
    assert(encode_utf8(seq![c]) =~= bytes) by {
        reveal_with_fuel(encode_utf8, 2);
        assert(seq![c].drop_first() =~= Seq::<char>::empty());
    }
    encode_utf8_valid_utf8(seq![c]);
    lemma_scalar_bytes(c);
    if bytes.len() == 1 {
        assert(bytes.drop_last() =~= Seq::<u8>::empty());
        assert(escaped(Seq::<u8>::empty()) =~= Seq::<u8>::empty());
        assert(escaped(bytes) =~= escaped_byte(bytes[0]));
        encode_utf8_valid_utf8("&lt;"@);
        encode_utf8_valid_utf8("&gt;"@);
        encode_utf8_valid_utf8("&amp;"@);
        encode_utf8_valid_utf8("&apos;"@);
        encode_utf8_valid_utf8("&quot;"@);
        encode_utf8_valid_utf8("&#13;"@);
        assert(seq![bytes[0]] =~= bytes);
    } else {
        lemma_escaped_keeps_high_bytes(bytes);
    }
}

/// Character data is written as valid UTF-8.
pub proof fn lemma_escaped_text_is_utf8(content: Seq<char>)
    ensures
        valid_utf8(escaped(encode_utf8(content))),
    decreases content.len(),
{
    if content.len() == 0 {
        assert(escaped(encode_utf8(content)) =~= Seq::<u8>::empty());
    } else {
        let first = encode_scalar(content[0] as u32);
        let rest = encode_utf8(content.drop_first());
        lemma_escaped_concat(first, rest);
        lemma_escaped_scalar_is_utf8(content[0]);
        lemma_escaped_text_is_utf8(content.drop_first());
        valid_utf8_concat(escaped(first), escaped(rest));
    }
}

/// Whatever the markup, it is written as valid UTF-8.
pub proof fn lemma_rendered_is_utf8(markup: Seq<Markup>)
    ensures
        valid_utf8(rendered(markup)),
    decreases markup.len(),
{
    if markup.len() > 0 {
        lemma_rendered_is_utf8(markup.drop_last());
        let bytes = markup_bytes(markup.last());
        assert(valid_utf8(bytes)) by {
            match markup.last() {
                Markup::Declaration { version, encoding, standalone } => {
                    let inside = encode_utf8(declaration_text(version, encoding, standalone));
                    encode_utf8_valid_utf8("<?"@);
                    encode_utf8_valid_utf8(declaration_text(version, encoding, standalone));
                    encode_utf8_valid_utf8("?>"@);
                    valid_utf8_concat(encode_utf8("<?"@), inside);
                    valid_utf8_concat(encode_utf8("<?"@) + inside, encode_utf8("?>"@));
                },
                Markup::Open(name) => {
                    encode_utf8_valid_utf8("<"@);
                    encode_utf8_valid_utf8(name);
                    encode_utf8_valid_utf8(">"@);
                    valid_utf8_concat(encode_utf8("<"@), encode_utf8(name));
                    valid_utf8_concat(encode_utf8("<"@) + encode_utf8(name), encode_utf8(">"@));
                },
                Markup::Text(content) => {
                    lemma_escaped_text_is_utf8(content);
                },
                Markup::Close(name) => {
                    encode_utf8_valid_utf8("</"@);
                    encode_utf8_valid_utf8(name);
                    encode_utf8_valid_utf8(">"@);
                    valid_utf8_concat(encode_utf8("</"@), encode_utf8(name));
                    valid_utf8_concat(encode_utf8("</"@) + encode_utf8(name), encode_utf8(">"@));
                },
            }
        }
        valid_utf8_concat(rendered(markup.drop_last()), bytes);
    }
}

/// An element renders as its start tag, its content and its end tag.
pub proof fn lemma_rendered_element(name: Seq<char>, content: Seq<Markup>)
    ensures
        rendered(element(name, content)) == markup_bytes(Markup::Open(name)) + rendered(content)
            + markup_bytes(Markup::Close(name)),
{
    lemma_rendered_concat(seq![Markup::Open(name)] + content, seq![Markup::Close(name)]);
    lemma_rendered_concat(seq![Markup::Open(name)], content);
    lemma_rendered_one(Markup::Open(name));
    lemma_rendered_one(Markup::Close(name));
}

/// The elements that are open after `markup`, outermost first, where
/// those of `stack` were open before it; `None` where `markup` closes an
/// element other than the innermost open one.
pub open spec fn open_after(stack: Seq<Seq<char>>, markup: Seq<Markup>) -> Option<
    Seq<Seq<char>>,
>
    decreases markup.len(),
{
    if markup.len() == 0 {
        Some(stack)
    } else {
        match open_after(stack, markup.drop_last()) {
            None => None,
            Some(open) => match markup.last() {
                Markup::Open(name) => Some(open.push(name)),
                Markup::Close(name) => if open.len() > 0 && open.last() == name {
                    Some(open.drop_last())
                } else {
                    None
                },
                _ => Some(open),
            },
        }
    }
}

/// Whether `markup` closes every element it opens, innermost first, and no
/// other: whatever was open before it is open after it, and nothing else.
pub open spec fn balanced(markup: Seq<Markup>) -> bool {
    forall|stack: Seq<Seq<char>>| #[trigger] open_after(stack, markup) == Some(stack)
}

/// Whether `markup` is well nested as a whole document: read from the start,
/// each end tag closes the innermost open element, and none is left open.
pub open spec fn well_nested(markup: Seq<Markup>) -> bool {
    open_after(Seq::empty(), markup) == Some(Seq::<Seq<char>>::empty())
}

/// Reading a run of markup is reading its front, then its back.
pub proof fn lemma_open_after_concat(stack: Seq<Seq<char>>, front: Seq<Markup>, back: Seq<Markup>)
    ensures
        open_after(stack, front + back) == match open_after(stack, front) {
            Some(open) => open_after(open, back),
            None => None,
        },
    decreases back.len(),
{
    if back.len() == 0 {
        assert(front + back =~= front);
    } else {
        assert((front + back).drop_last() =~= front + back.drop_last());
        assert((front + back).last() == back.last());
        lemma_open_after_concat(stack, front, back.drop_last());
    }
}

/// Two balanced runs, one after the other, are balanced.
pub proof fn lemma_balanced_concat(front: Seq<Markup>, back: Seq<Markup>)
    requires
        balanced(front),
        balanced(back),
    ensures
        balanced(front + back),
{
    assert forall|stack: Seq<Seq<char>>| #[trigger]
        open_after(stack, front + back) == Some(stack) by {
        lemma_open_after_concat(stack, front, back);
    }
}

/// A piece that is no tag is balanced.
pub proof fn lemma_balanced_piece(piece: Markup)
    requires
        !(piece is Open),
        !(piece is Close),
    ensures
        balanced(seq![piece]),
{
    assert forall|stack: Seq<Seq<char>>| #[trigger]
        open_after(stack, seq![piece]) == Some(stack) by {
        assert(seq![piece].drop_last() =~= Seq::<Markup>::empty());
        assert(open_after(stack, Seq::<Markup>::empty()) == Some(stack));
        assert(seq![piece].last() == piece);
    }
}

/// An element around balanced content is balanced.
pub proof fn lemma_balanced_element(name: Seq<char>, content: Seq<Markup>)
    requires
        balanced(content),
    ensures
        balanced(element(name, content)),
{
    assert forall|stack: Seq<Seq<char>>| #[trigger]
        open_after(stack, element(name, content)) == Some(stack) by {
        let start = seq![Markup::Open(name)];
        let end = seq![Markup::Close(name)];
        assert(start.drop_last() =~= Seq::<Markup>::empty());
        assert(open_after(stack, Seq::<Markup>::empty()) == Some(stack));
        assert(start.last() == Markup::Open(name));
        assert(open_after(stack, start) == Some(stack.push(name)));
        lemma_open_after_concat(stack, start, content);
        assert(open_after(stack.push(name), content) == Some(stack.push(name)));
        lemma_open_after_concat(stack, start + content, end);
        assert(end.drop_last() =~= Seq::<Markup>::empty());
        assert(open_after(stack.push(name), Seq::<Markup>::empty()) == Some(stack.push(name)));
        assert(end.last() == Markup::Close(name));
        assert(stack.push(name).drop_last() =~= stack);
        assert(open_after(stack.push(name), end) == Some(stack));
    }
}

/// An element that holds only character data is balanced.
pub proof fn lemma_balanced_text_element(name: Seq<char>, content: Seq<char>)
    ensures
        balanced(text_element(name, content)),
{
    lemma_balanced_piece(Markup::Text(content));
    lemma_balanced_element(name, seq![Markup::Text(content)]);
}

/// Whatever the track, its document is well nested: every element that is
/// opened is closed, and the elements are closed in the reverse of the order
/// in which they were opened.
pub proof fn lemma_document_well_nested(track: Seq<Seq<char>>)
    ensures
        balanced(document_markup(track)),
        well_nested(document_markup(track)),
{
    let inner = if track.len() == 0 {
        Seq::<Markup>::empty()
    } else {
        placemark(track)
    };
    if track.len() == 0 {
        assert forall|stack: Seq<Seq<char>>| #[trigger]
            open_after(stack, inner) == Some(stack) by {}
    } else {
        let color = text_element("color"@, "ff0000ff"@);
        let width = text_element("width"@, "4"@);
        lemma_balanced_text_element("color"@, "ff0000ff"@);
        lemma_balanced_text_element("width"@, "4"@);
        lemma_balanced_concat(color, width);
        lemma_balanced_element("LineStyle"@, color + width);
        lemma_balanced_element("Style"@, element("LineStyle"@, color + width));
        let mode = text_element("altitudeMode"@, "clampToGround"@);
        let path = text_element("coordinates"@, joined(track, " "@));
        lemma_balanced_text_element("altitudeMode"@, "clampToGround"@);
        lemma_balanced_text_element("coordinates"@, joined(track, " "@));
        lemma_balanced_concat(mode, path);
        lemma_balanced_element("LineString"@, mode + path);
        lemma_balanced_concat(line_style(), line_string(track));
        lemma_balanced_element("Placemark"@, line_style() + line_string(track));
    }
    lemma_balanced_element("Document"@, inner);
    lemma_balanced_element("kml"@, element("Document"@, inner));
    let declaration = Markup::Declaration {
        version: "1.0"@,
        encoding: Some("UTF-8"@),
        standalone: None,
    };
    lemma_balanced_piece(declaration);
    lemma_balanced_concat(seq![declaration], element("kml"@, element("Document"@, inner)));
    assert(open_after(Seq::empty(), document_markup(track)) == Some(Seq::<Seq<char>>::empty()));
}

/// The document of an empty track is the declaration and the two containers,
/// opened and closed, and holds no placemark.
pub proof fn lemma_empty_track_has_no_placemark(track: Seq<Seq<char>>)
    requires
        track.len() == 0,
    ensures
        document_markup(track) == seq![
            Markup::Declaration { version: "1.0"@, encoding: Some("UTF-8"@), standalone: None },
            Markup::Open("kml"@),
            Markup::Open("Document"@),
            Markup::Close("Document"@),
            Markup::Close("kml"@),
        ],
        forall|i: int|
            0 <= i < document_markup(track).len() ==> #[trigger] document_markup(track)[i]
                != Markup::Open("Placemark"@),
{
    reveal_strlit("kml");
    reveal_strlit("Document");
    reveal_strlit("Placemark");
    let pieces = seq![
        Markup::Declaration { version: "1.0"@, encoding: Some("UTF-8"@), standalone: None },
        Markup::Open("kml"@),
        Markup::Open("Document"@),
        Markup::Close("Document"@),
        Markup::Close("kml"@),
    ];
    assert(document_markup(track) =~= pieces);
    assert("kml"@.len() != "Placemark"@.len());
    assert("Document"@.len() != "Placemark"@.len());
}

/// How often `piece` stands in `markup`.
pub open spec fn occurrences(markup: Seq<Markup>, piece: Markup) -> nat
    decreases markup.len(),
{
    if markup.len() == 0 {
        0
    } else {
        occurrences(markup.drop_last(), piece) + if markup.last() == piece {
            1nat
        } else {
            0nat
        }
    }
}

/// A piece stands in a run as often as in its front and its back together.
pub proof fn lemma_occurrences_concat(front: Seq<Markup>, back: Seq<Markup>, piece: Markup)
    ensures
        occurrences(front + back, piece) == occurrences(front, piece) + occurrences(back, piece),
    decreases back.len(),
{
    if back.len() == 0 {
        assert(front + back =~= front);
    } else {
        assert((front + back).drop_last() =~= front + back.drop_last());
        assert((front + back).last() == back.last());
        lemma_occurrences_concat(front, back.drop_last(), piece);
    }
}

/// A start tag stands in an element as often as in its content, and once
/// more where it is the element's own.
pub proof fn lemma_occurrences_element(name: Seq<char>, content: Seq<Markup>, tag: Seq<char>)
    ensures
        occurrences(element(name, content), Markup::Open(tag)) == occurrences(
            content,
            Markup::Open(tag),
        ) + if name == tag {
            1nat
        } else {
            0nat
        },
{
    let piece = Markup::Open(tag);
    let start = seq![Markup::Open(name)];
    let end = seq![Markup::Close(name)];
    lemma_occurrences_concat(start + content, end, piece);
    lemma_occurrences_concat(start, content, piece);
    assert(start.drop_last() =~= Seq::<Markup>::empty());
    assert(end.drop_last() =~= Seq::<Markup>::empty());
    assert(occurrences(Seq::<Markup>::empty(), piece) == 0);
    assert(start.last() == Markup::Open(name));
    assert(end.last() == Markup::Close(name));
}

/// A start tag does not stand in an element of another name that holds only
/// character data.
pub proof fn lemma_occurrences_text_element(name: Seq<char>, content: Seq<char>, tag: Seq<char>)
    requires
        name != tag,
    ensures
        occurrences(text_element(name, content), Markup::Open(tag)) == 0,
{
    let inner = seq![Markup::Text(content)];
    assert(inner.drop_last() =~= Seq::<Markup>::empty());
    assert(occurrences(Seq::<Markup>::empty(), Markup::Open(tag)) == 0);
    assert(inner.last() == Markup::Text(content));
    lemma_occurrences_element(name, inner, tag);
}

/// The document holds exactly one placemark where the track has a
/// coordinate, and none where it has not.
pub proof fn lemma_one_placemark_or_none(track: Seq<Seq<char>>)
    ensures
        occurrences(document_markup(track), Markup::Open("Placemark"@)) == if track.len() == 0 {
            0nat
        } else {
            1nat
        },
{
    reveal_strlit("Placemark");
    reveal_strlit("kml");
    reveal_strlit("Document");
    reveal_strlit("Style");
    reveal_strlit("LineStyle");
    reveal_strlit("color");
    reveal_strlit("width");
    reveal_strlit("LineString");
    reveal_strlit("altitudeMode");
    reveal_strlit("coordinates");
    let tag = "Placemark"@;
    let piece = Markup::Open(tag);
    assert("LineStyle"@[0] != tag[0]);
    assert("kml"@.len() != tag.len());
    assert("Document"@.len() != tag.len());
    assert("Style"@.len() != tag.len());
    assert("color"@.len() != tag.len());
    assert("width"@.len() != tag.len());
    assert("LineString"@.len() != tag.len());
    assert("altitudeMode"@.len() != tag.len());
    assert("coordinates"@.len() != tag.len());
    let inner = if track.len() == 0 {
        Seq::<Markup>::empty()
    } else {
        placemark(track)
    };
    assert(occurrences(Seq::<Markup>::empty(), piece) == 0);
    if track.len() > 0 {
        let color = text_element("color"@, "ff0000ff"@);
        let width = text_element("width"@, "4"@);
        lemma_occurrences_text_element("color"@, "ff0000ff"@, tag);
        lemma_occurrences_text_element("width"@, "4"@, tag);
        lemma_occurrences_concat(color, width, piece);
        lemma_occurrences_element("LineStyle"@, color + width, tag);
        lemma_occurrences_element("Style"@, element("LineStyle"@, color + width), tag);
        let mode = text_element("altitudeMode"@, "clampToGround"@);
        let path = text_element("coordinates"@, joined(track, " "@));
        lemma_occurrences_text_element("altitudeMode"@, "clampToGround"@, tag);
        lemma_occurrences_text_element("coordinates"@, joined(track, " "@), tag);
        lemma_occurrences_concat(mode, path, piece);
        lemma_occurrences_element("LineString"@, mode + path, tag);
        lemma_occurrences_concat(line_style(), line_string(track), piece);
        lemma_occurrences_element("Placemark"@, line_style() + line_string(track), tag);
    }
    lemma_occurrences_element("Document"@, inner, tag);
    lemma_occurrences_element("kml"@, element("Document"@, inner), tag);
    let declaration = Markup::Declaration {
        version: "1.0"@,
        encoding: Some("UTF-8"@),
        standalone: None,
    };
    assert(seq![declaration].drop_last() =~= Seq::<Markup>::empty());
    assert(seq![declaration].last() == declaration);
    lemma_occurrences_concat(seq![declaration], element("kml"@, element("Document"@, inner)), piece);
}

/// The error type of `std::io`, in which `quick_xml::Writer::write_event`
/// reports a failed write. It is carried, never looked into.
#[verifier::external_type_specification]
#[verifier::external_body]
pub struct ExIoError(std::io::Error);

/// The text that an optional string slice holds.
pub open spec fn text_of(slice: Option<&str>) -> Option<Seq<char>> {
    match slice {
        Some(text) => Some(text@),
        None => None,
    }
}

/// Puts a `quick_xml::Writer` on `buf` and hands its `write_event` the
/// declaration that `quick_xml::events::BytesDecl::new` makes of the three
/// arguments. Trusted: that the call succeeds, a write to a vector being one
/// that cannot fail, and appends to `buf` the bytes `<?`, then `xml version="`
/// with the version and, for each attribute that is given, `" encoding="` or
/// `" standalone="` with its value, a closing quote, and `?>`.
#[verifier::external_body]
fn write_declaration(
    buf: &mut Vec<u8>,
    version: &str,
    encoding: Option<&str>,
    standalone: Option<&str>,
) -> (r: Result<(), std::io::Error>)
    ensures
        r is Ok,
        final(buf)@ == old(buf)@ + markup_bytes(
            (Markup::Declaration {
                version: version@,
                encoding: text_of(encoding),
                standalone: text_of(standalone),
            }),
        ),
{
    Writer::new(buf).write_event(Event::Decl(BytesDecl::new(version, encoding, standalone)))
}

/// Puts a `quick_xml::Writer` on `buf` and hands its `write_event` the start
/// tag that `quick_xml::events::BytesStart::new` makes of `name`. Trusted:
/// that the call succeeds, a write to a vector being one that cannot fail,
/// and appends to `buf` the bytes `<`, `name` as it is, and `>`.
#[verifier::external_body]
fn write_open(buf: &mut Vec<u8>, name: &str) -> (r: Result<(), std::io::Error>)
    ensures
        r is Ok,
        final(buf)@ == old(buf)@ + markup_bytes(Markup::Open(name@)),
{
    Writer::new(buf).write_event(Event::Start(BytesStart::new(name)))
}

/// Puts a `quick_xml::Writer` on `buf` and hands its `write_event` the
/// character data that `quick_xml::events::BytesText::new` makes of
/// `content`. Trusted: that the call succeeds, a write to a vector being one
/// that cannot fail, and appends to `buf` the bytes of `content` as
/// `quick_xml::escape::escape` leaves them: `<`, `>`, `&`, `'`, `"` and the
/// carriage return replaced by `&lt;`, `&gt;`, `&amp;`, `&apos;`, `&quot;` and
/// `&#13;`, every other byte as it is.
#[verifier::external_body]
fn write_text(buf: &mut Vec<u8>, content: &str) -> (r: Result<(), std::io::Error>)
    ensures
        r is Ok,
        final(buf)@ == old(buf)@ + markup_bytes(Markup::Text(content@)),
{
    Writer::new(buf).write_event(Event::Text(BytesText::new(content)))
}

/// Puts a `quick_xml::Writer` on `buf` and hands its `write_event` the end
/// tag that `quick_xml::events::BytesEnd::new` makes of `name`. Trusted: that
/// the call succeeds, a write to a vector being one that cannot fail, and
/// appends to `buf` the bytes `</`, `name` as it is, and `>`.
#[verifier::external_body]
fn write_close(buf: &mut Vec<u8>, name: &str) -> (r: Result<(), std::io::Error>)
    ensures
        r is Ok,
        final(buf)@ == old(buf)@ + markup_bytes(Markup::Close(name@)),
{
    Writer::new(buf).write_event(Event::End(BytesEnd::new(name)))
}

/// Joins `parts` into one text, with `separator` between each two.
pub fn join(parts: &Vec<String>, separator: &str) -> (text: String)
    ensures
        text@ == joined(parts.deep_view(), separator@),
{
    let mut text: String = String::new();
    let mut i: usize = 0;
    while i < parts.len()
        invariant
            i <= parts.len(),
            text@ == joined(parts.deep_view().take(i as int), separator@),
        decreases parts.len() - i,
    {
        proof {
            let before = parts.deep_view().take(i as int);
            let after = parts.deep_view().take(i + 1);
            assert(after.drop_last() =~= before);
            assert(after.last() == parts[i as int]@);
            if i == 0 {
                assert(text@ =~= Seq::<char>::empty());
                assert(Seq::<char>::empty() + parts[i as int]@ =~= parts[i as int]@);
            }
        }
        if i > 0 {
            text.append(separator);
        }
        text.append(parts[i].as_str());
        i += 1;
    }
    assert(parts.deep_view().take(i as int) =~= parts.deep_view());
    text
}

/// Appends to `buf` the element `name` holding the character data `content`.
fn write_text_element(buf: &mut Vec<u8>, name: &str, content: &str)
    ensures
        final(buf)@ == old(buf)@ + rendered(text_element(name@, content@)),
{
    let _ = write_open(buf, name);
    let _ = write_text(buf, content);
    let _ = write_close(buf, name);
    proof {
        lemma_rendered_element(name@, seq![Markup::Text(content@)]);
        lemma_rendered_one(Markup::Text(content@));
        assert(buf@ =~= old(buf)@ + rendered(text_element(name@, content@)));
    }
}

/// Appends to `buf` the style of the path.
fn write_line_style(buf: &mut Vec<u8>)
    ensures
        final(buf)@ == old(buf)@ + rendered(line_style()),
{
    let _ = write_open(buf, "Style");
    let _ = write_open(buf, "LineStyle");
    write_text_element(buf, "color", "ff0000ff");
    write_text_element(buf, "width", "4");
    let _ = write_close(buf, "LineStyle");
    let _ = write_close(buf, "Style");
    proof {
        let color = text_element("color"@, "ff0000ff"@);
        let width = text_element("width"@, "4"@);
        lemma_rendered_concat(color, width);
        lemma_rendered_element("LineStyle"@, color + width);
        lemma_rendered_element("Style"@, element("LineStyle"@, color + width));
        assert(buf@ =~= old(buf)@ + rendered(line_style()));
    }
}

/// Appends to `buf` the path through the coordinates of `track`.
fn write_line_string(buf: &mut Vec<u8>, track: &Vec<String>)
    ensures
        final(buf)@ == old(buf)@ + rendered(line_string(track.deep_view())),
{
    let coordinates: String = join(track, " ");
    let _ = write_open(buf, "LineString");
    write_text_element(buf, "altitudeMode", "clampToGround");
    write_text_element(buf, "coordinates", coordinates.as_str());
    let _ = write_close(buf, "LineString");
    proof {
        let mode = text_element("altitudeMode"@, "clampToGround"@);
        let path = text_element("coordinates"@, joined(track.deep_view(), " "@));
        lemma_rendered_concat(mode, path);
        lemma_rendered_element("LineString"@, mode + path);
        assert(buf@ =~= old(buf)@ + rendered(line_string(track.deep_view())));
    }
}

/// Appends to `buf` the placemark of `track`.
fn write_placemark(buf: &mut Vec<u8>, track: &Vec<String>)
    ensures
        final(buf)@ == old(buf)@ + rendered(placemark(track.deep_view())),
{
    let _ = write_open(buf, "Placemark");
    write_line_style(buf);
    write_line_string(buf, track);
    let _ = write_close(buf, "Placemark");
    proof {
        lemma_rendered_concat(line_style(), line_string(track.deep_view()));
        lemma_rendered_element("Placemark"@, line_style() + line_string(track.deep_view()));
        assert(buf@ =~= old(buf)@ + rendered(placemark(track.deep_view())));
    }
}

/// Writes the document for the ordered track `track`: the declaration and
/// the two containers always, and between them one placemark with the styled
/// path where the track has a coordinate. With an empty track there is no
/// placemark at all.
pub fn emit(track: &Vec<String>) -> (document: Vec<u8>)
    ensures
        document@ == document_bytes(track.deep_view()),
        well_nested(document_markup(track.deep_view())),
        valid_utf8(document@),
{
    let mut buf: Vec<u8> = Vec::new();
    let _ = write_declaration(&mut buf, "1.0", Some("UTF-8"), None);
    let _ = write_open(&mut buf, "kml");
    let _ = write_open(&mut buf, "Document");
    if track.len() > 0 {
        write_placemark(&mut buf, track);
    }
    let _ = write_close(&mut buf, "Document");
    let _ = write_close(&mut buf, "kml");
    proof {
        let declaration = Markup::Declaration {
            version: "1.0"@,
            encoding: Some("UTF-8"@),
            standalone: None,
        };
        let inner = if track.deep_view().len() == 0 {
            Seq::<Markup>::empty()
        } else {
            placemark(track.deep_view())
        };
        assert(rendered(Seq::<Markup>::empty()) =~= Seq::<u8>::empty());
        lemma_rendered_element("Document"@, inner);
        lemma_rendered_element("kml"@, element("Document"@, inner));
        lemma_rendered_one(declaration);
        lemma_rendered_concat(seq![declaration], element("kml"@, element("Document"@, inner)));
        assert(buf@ =~= document_bytes(track.deep_view()));
        lemma_document_well_nested(track.deep_view());
        lemma_rendered_is_utf8(document_markup(track.deep_view()));
    }
    buf
}

} // verus!
