use lopdf::{Dictionary, Document, Object, ObjectId, Stream};
use quartet_splitter::copying::{deep_copy_object, try_deep_copy};
use quartet_splitter::decoding::{can_decode, is_harmless};
use quartet_splitter::detect::{Band, Cut, Protrusion, StripShape};
use quartet_splitter::pages::{embed_page_as_xobject, page_dims, try_embed_page, PartError};
use quartet_splitter::parts::{
    try_write_part, try_write_parts, write_one_part, write_parts, Attempt, Ending, Outcome,
};
use quartet_splitter::single::Single;

fn s(x: f32) -> Single {
    Single { bits: x.to_bits() }
}

fn shape(top: f32, bot: f32) -> StripShape {
    StripShape { base: Band { y_top: s(top), y_bot: s(bot) }, protrusions: Vec::new() }
}

fn strip(top: f32, bot: f32) -> Cut {
    Cut::Strip(shape(top, bot))
}

fn dict(entries: Vec<(&str, Object)>) -> Dictionary {
    let mut d = Dictionary::new();
    for (k, v) in entries {
        d.set(k, v);
    }
    d
}

fn name(text: &str) -> Object {
    Object::Name(text.as_bytes().to_vec())
}

fn media_box(w: f32, h: f32) -> Object {
    Object::Array(vec![
        Object::Integer(0),
        Object::Integer(0),
        Object::Real(w),
        Object::Real(h),
    ])
}

/// A document with pages of these widths, each with its own content and all
/// with the same font.
fn score(widths: &[f32]) -> (Document, Vec<ObjectId>) {
    let mut doc = Document::with_version("1.5");
    let pages_id = doc.new_object_id();
    let font = doc.add_object(dict(vec![("Type", name("Font")), ("BaseFont", name("Courier"))]));
    let mut ids = Vec::new();
    for (k, &w) in widths.iter().enumerate() {
        let text = format!("BT /F1 12 Tf ({}) Tj ET", k).into_bytes();
        let content = doc.add_object(Stream::new(Dictionary::new(), text));
        let fonts = dict(vec![("F1", Object::Reference(font))]);
        ids.push(doc.add_object(dict(vec![
            ("Type", name("Page")),
            ("Parent", Object::Reference(pages_id)),
            ("MediaBox", media_box(w, 842.0)),
            ("Resources", Object::Dictionary(dict(vec![("Font", Object::Dictionary(fonts))]))),
            ("Contents", Object::Reference(content)),
        ])));
    }
    let kids = ids.iter().map(|&id| Object::Reference(id)).collect();
    doc.objects.insert(
        pages_id,
        Object::Dictionary(dict(vec![
            ("Type", name("Pages")),
            ("Kids", Object::Array(kids)),
            ("Count", Object::Integer(widths.len() as i64)),
        ])),
    );
    let catalog = doc.add_object(dict(vec![
        ("Type", name("Catalog")),
        ("Pages", Object::Reference(pages_id)),
    ]));
    doc.trailer.set("Root", Object::Reference(catalog));
    (doc, ids)
}

fn dims_with(value: Object) -> (f32, f32) {
    let mut doc = Document::with_version("1.5");
    let id = doc.add_object(dict(vec![("MediaBox", value)]));
    let (w, h) = page_dims(&doc, id);
    (f32::from_bits(w.bits), f32::from_bits(h.bits))
}

#[test]
fn page_sizes_are_read() {
    assert_eq!(dims_with(media_box(612.5, 792.0)), (612.5, 792.0));
    let mixed = vec![Object::Null, Object::Null, Object::Integer(-7), Object::Real(0.1)];
    assert_eq!(dims_with(Object::Array(mixed)), (-7.0, 0.1));
    let big = vec![Object::Null, Object::Null, Object::Integer(i64::MAX), Object::Integer(16777217)];
    assert_eq!(dims_with(Object::Array(big)), (i64::MAX as f32, 16777217i64 as f32));
}

#[test]
fn pages_without_a_size_get_the_usual_one() {
    let usual = (595.0, 842.0);
    assert_eq!(dims_with(Object::Null), usual);
    assert_eq!(dims_with(Object::Array(vec![Object::Integer(1); 3])), usual);
    let text = vec![Object::Null, Object::Null, Object::Integer(1), name("a")];
    assert_eq!(dims_with(Object::Array(text)), usual);
    assert_eq!(dims_with(Object::Reference((1, 0))), usual);
    let mut doc = Document::with_version("1.5");
    let number = doc.add_object(Object::Integer(3));
    for id in [number, (99, 0)] {
        let (w, h) = page_dims(&doc, id);
        assert_eq!((w, h), (s(595.0), s(842.0)));
    }
    // A page behind references is found.
    let page = doc.add_object(dict(vec![("MediaBox", media_box(10.0, 20.0))]));
    let first = doc.add_object(Object::Reference(page));
    let second = doc.add_object(Object::Reference(first));
    assert_eq!(page_dims(&doc, second), (s(10.0), s(20.0)));
}

#[test]
fn an_object_is_copied_with_all_that_it_refers_to() {
    let mut src = Document::with_version("1.5");
    let length = src.add_object(Object::Integer(999));
    let mut stream = Stream::new(dict(vec![("A", name("B"))]), vec![1, 2, 3]);
    stream.dict.set("Length", Object::Reference(length));
    let stream = src.add_object(Object::Stream(stream));
    let shared = src.add_object(Object::String(b"text".to_vec(), lopdf::StringFormat::Hexadecimal));
    let alias = src.add_object(Object::Reference(shared));
    let object = Object::Dictionary(dict(vec![
        ("S", Object::Reference(stream)),
        ("L", Object::Array(vec![Object::Reference(alias), Object::Boolean(true), Object::Null])),
        ("R", Object::Real(1.25)),
        ("T", Object::Reference(shared)),
    ]));
    let mut out = Document::with_version("1.5");
    let kept = out.add_object(Object::Integer(42));
    let copy = deep_copy_object(&src, &object, &mut out);
    // The length is copied before its stream.
    let want = Object::Dictionary(dict(vec![
        ("S", Object::Reference((3, 0))),
        ("L", Object::Array(vec![Object::Reference((4, 0)), Object::Boolean(true), Object::Null])),
        ("R", Object::Real(1.25)),
        ("T", Object::Reference((5, 0))),
    ]));
    assert_eq!(copy, want);
    assert_eq!(out.max_id, 5);
    assert_eq!(out.objects.len(), 5);
    assert_eq!(out.objects[&kept], Object::Integer(42));
    assert_eq!(out.objects[&(2, 0)], Object::Integer(999));
    let made = Stream::new(dict(vec![("A", name("B"))]), vec![1, 2, 3]);
    assert_eq!(out.objects[&(3, 0)], Object::Stream(made));
    for id in [(4, 0), (5, 0)] {
        assert_eq!(out.objects[&id], src.objects[&shared]);
    }
}

#[test]
fn references_that_lead_nowhere_are_kept() {
    let mut src = Document::with_version("1.5");
    let around = src.new_object_id();
    src.objects.insert(around, Object::Reference(around));
    let mut out = Document::with_version("1.5");
    for id in [(7, 0), around] {
        let object = Object::Reference(id);
        assert_eq!(deep_copy_object(&src, &object, &mut out), object);
    }
    assert_eq!(out.max_id, 0);
}

#[test]
fn long_chains_of_references_are_cut() {
    let mut src = Document::with_version("1.5");
    let mut id = src.add_object(Object::Integer(5));
    for _ in 0..128 {
        id = src.add_object(Object::Reference(id));
    }
    let mut out = Document::with_version("1.5");
    assert_eq!(
        deep_copy_object(&src, &Object::Reference(id), &mut out),
        Object::Reference((1, 0))
    );
    assert_eq!(out.objects[&(1, 0)], Object::Integer(5));
    let longer = Object::Reference(src.add_object(Object::Reference(id)));
    assert_eq!(deep_copy_object(&src, &longer, &mut out), longer);
}

#[test]
fn an_object_that_refers_to_itself_is_copied() {
    let mut src = Document::with_version("1.5");
    src.max_id = 1;
    src.objects.insert(
        (1, 0),
        Object::Dictionary(dict(vec![("A", Object::Reference((1, 0))), ("B", Object::Integer(7))])),
    );
    let mut out = Document::with_version("1.5");
    out.add_object(Object::Null);
    let copy = deep_copy_object(&src, &Object::Reference((1, 0)), &mut out);
    assert_eq!(copy, Object::Reference((2, 0)));
    let want = dict(vec![("A", Object::Reference((2, 0))), ("B", Object::Integer(7))]);
    assert_eq!(out.objects[&(2, 0)], Object::Dictionary(want));
    assert_eq!(out.objects.len(), 2);
    assert_eq!(out.max_id, 2);
}

#[test]
fn circles_of_objects_are_copied_once() {
    let mut src = Document::with_version("1.5");
    let page = src.new_object_id();
    let list = src.new_object_id();
    let leaf = src.add_object(Object::Integer(1));
    let stream = src.add_object(Stream::new(
        dict(vec![("Up", Object::Reference(page))]),
        b"abc".to_vec(),
    ));
    src.objects.insert(
        page,
        Object::Dictionary(dict(vec![
            ("List", Object::Reference(list)),
            ("Leaf", Object::Reference(leaf)),
            ("Gone", Object::Reference((99, 0))),
        ])),
    );
    src.objects.insert(
        list,
        Object::Array(vec![
            Object::Reference(page),
            Object::Reference(leaf),
            Object::Reference(stream),
        ]),
    );
    let mut out = Document::with_version("1.5");
    let object = Object::Array(vec![Object::Reference(page), Object::Boolean(true)]);
    let copy = deep_copy_object(&src, &object, &mut out);
    assert_eq!(copy, Object::Array(vec![Object::Reference((1, 0)), Object::Boolean(true)]));
    let want = dict(vec![
        ("List", Object::Reference((2, 0))),
        ("Leaf", Object::Reference((3, 0))),
        ("Gone", Object::Reference((99, 0))),
    ]);
    assert_eq!(out.objects[&(1, 0)], Object::Dictionary(want));
    let items = vec![
        Object::Reference((1, 0)),
        Object::Reference((3, 0)),
        Object::Reference((4, 0)),
    ];
    assert_eq!(out.objects[&(2, 0)], Object::Array(items));
    assert_eq!(out.objects[&(3, 0)], Object::Integer(1));
    let made = Stream::new(dict(vec![("Up", Object::Reference((1, 0)))]), b"abc".to_vec());
    assert_eq!(out.objects[&(4, 0)], Object::Stream(made));
    assert_eq!(out.objects.len(), 4);
    // There have to be numbers for all of them.
    let mut full = Document::with_version("1.5");
    full.max_id = u32::MAX - 4;
    assert!(try_deep_copy(&src, &object, &mut full).is_some());
    assert_eq!(full.max_id, u32::MAX);
    full.max_id = u32::MAX - 3;
    assert!(try_deep_copy(&src, &object, &mut full).is_none());
}

#[test]
fn copies_need_numbers() {
    let mut src = Document::with_version("1.5");
    let leaf = src.add_object(Object::Integer(1));
    let object = Object::Array(vec![Object::Reference(leaf), Object::Reference(leaf)]);
    let mut out = Document::with_version("1.5");
    out.max_id = u32::MAX - 2;
    assert!(try_deep_copy(&src, &object, &mut out).is_some());
    assert_eq!(out.max_id, u32::MAX);
    out.max_id = u32::MAX - 1;
    assert!(try_deep_copy(&src, &object, &mut out).is_none());
}

#[test]
fn a_page_becomes_a_form() {
    let (src, ids) = score(&[600.0, 500.0]);
    let mut out = Document::with_version("1.5");
    let form = embed_page_as_xobject(&src, ids[1], &mut out).ok().unwrap();
    assert_eq!(form, (2, 0));
    let stream = out.get_object(form).unwrap().as_stream().unwrap();
    assert_eq!(stream.content, b"BT /F1 12 Tf (1) Tj ET".to_vec());
    let fonts = dict(vec![("F1", Object::Reference((1, 0)))]);
    let want = dict(vec![
        ("Type", name("XObject")),
        ("Subtype", name("Form")),
        ("FormType", Object::Integer(1)),
        (
            "BBox",
            Object::Array(vec![
                Object::Real(0.0),
                Object::Real(0.0),
                Object::Real(500.0),
                Object::Real(842.0),
            ]),
        ),
        ("Resources", Object::Dictionary(dict(vec![("Font", Object::Dictionary(fonts))]))),
        ("Length", Object::Integer(22)),
    ]);
    assert_eq!(stream.dict, want);
    let keys: Vec<&Vec<u8>> = stream.dict.iter().map(|e| e.0).collect();
    let order: Vec<&Vec<u8>> = want.iter().map(|e| e.0).collect();
    assert_eq!(keys, order);
    assert!(out.get_object((1, 0)).unwrap().as_dict().unwrap().has(b"BaseFont"));
}

#[test]
fn the_content_of_a_page_is_decoded_and_joined() {
    let mut src = Document::with_version("1.5");
    let mut packed = Stream::new(Dictionary::new(), vec![b'a'; 500]);
    packed.compress().unwrap();
    assert!(packed.content.len() < 100);
    let first = src.add_object(Object::Stream(packed));
    let second = src.add_object(Stream::new(Dictionary::new(), b"tail".to_vec()));
    let page = src.add_object(dict(vec![(
        "Contents",
        Object::Array(vec![Object::Reference(first), Object::Reference(second)]),
    )]));
    let mut out = Document::with_version("1.5");
    let form = embed_page_as_xobject(&src, page, &mut out).ok().unwrap();
    let stream = out.get_object(form).unwrap().as_stream().unwrap();
    let mut want = vec![b'a'; 500];
    want.extend_from_slice(b"tail");
    assert_eq!(stream.content, want);
    assert!(!stream.dict.has(b"Resources"));
}

#[test]
fn pages_that_are_none_cannot_be_embedded() {
    let mut src = Document::with_version("1.5");
    let number = src.add_object(Object::Integer(3));
    let mut out = Document::with_version("1.5");
    assert!(matches!(
        embed_page_as_xobject(&src, (9, 0), &mut out),
        Err(PartError::NoPage(lopdf::Error::ObjectNotFound((9, 0))))
    ));
    assert!(matches!(
        embed_page_as_xobject(&src, number, &mut out),
        Err(PartError::NoDictionary(_))
    ));
    // Resources that refer back to their page are no obstacle.
    let id = src.new_object_id();
    let back = Object::Array(vec![Object::Reference(id)]);
    src.objects.insert(id, Object::Dictionary(dict(vec![("Resources", back)])));
    let form = embed_page_as_xobject(&src, id, &mut out).ok().unwrap();
    let stream = out.get_object(form).unwrap().as_stream().unwrap();
    let copied = stream.dict.get(b"Resources").unwrap().as_array().unwrap();
    let page = out.get_object(copied[0].as_reference().unwrap()).unwrap().as_dict().unwrap();
    assert_eq!(page.get(b"Resources").unwrap().as_array().unwrap(), copied);
    out.max_id = u32::MAX;
    let plain = src.add_object(Dictionary::new());
    assert!(try_embed_page(&src, plain, &mut out).is_none());
}

fn filtered(filters: Vec<&str>, bytes: &[u8]) -> Stream {
    let names = filters.into_iter().map(name).collect();
    Stream::new(dict(vec![("Filter", Object::Array(names))]), bytes.to_vec())
}

fn harmless(stream: &Stream) -> bool {
    is_harmless(&stream.dict, &stream.content)
}

#[test]
fn base_85_text_must_fit_its_groups() {
    let text = |bytes: &[u8]| harmless(&filtered(vec!["ASCII85Decode"], bytes));
    assert!(text(b"87cURD]i,\"Ebo80~>"));
    assert!(text(b""));
    assert!(text(b"zz!!!!!~>"));
    // The largest group there is, and the next one.
    assert!(text(b"s8W-!"));
    assert!(!text(b"s8W-\""));
    assert!(!text(b"s8 W\n-u~>"));
    // A group that is filled up is no larger than it may be.
    assert!(!text(b"s8W-"));
    assert!(text(b"s8W,"));
    // What the product already shows ends the text.
    assert!(text(b"uuuuu"));
    assert!(text(b"!z"));
    assert!(text(b"~>s8W-u"));
    // Another filter does not mind.
    assert!(harmless(&Stream::new(Dictionary::new(), b"s8W-u".to_vec())));
    assert!(harmless(&filtered(vec!["Other", "ASCII85Decode"], b"s8W-u")));
    assert!(!harmless(&filtered(vec!["ASCII85Decode", "Other"], b"s8W-u")));
}

#[test]
fn filters_are_applied_in_a_row() {
    assert!(harmless(&filtered(vec!["FlateDecode"], b"x")));
    assert!(harmless(&filtered(vec!["ASCII85Decode", "LZWDecode"], b"!!")));
    assert!(harmless(&filtered(vec!["LZWDecode", "Other"], b"x")));
    assert!(harmless(&filtered(vec!["FlateDecode"; 3], b"")));
    assert!(harmless(&filtered(vec!["ASCII85Decode", "LZWDecode", "FlateDecode"], b"!!")));
    let mut one = filtered(Vec::new(), b"s8W-u");
    assert!(harmless(&one));
    one.dict.set("Filter", name("ASCII85Decode"));
    assert!(!harmless(&one));
    one.dict.set("Filter", Object::Array(vec![name("ASCII85Decode"), Object::Null]));
    assert!(harmless(&one));
    // Text inside text: the inner one decides.
    let twice = vec!["ASCII85Decode", "ASCII85Decode"];
    assert!(!harmless(&filtered(twice.clone(), b"F#[5QFT~>")));
    assert!(harmless(&filtered(twice, b"F#[5Q+T~>")));
}

fn packed_text(tail: &[u8]) -> Stream {
    let mut bytes = vec![b'z'; 500];
    bytes.extend_from_slice(tail);
    let mut stream = Stream::new(Dictionary::new(), bytes);
    stream.compress().unwrap();
    assert!(stream.content.len() < 100);
    let names = vec![name("FlateDecode"), name("ASCII85Decode")];
    stream.dict.set("Filter", Object::Array(names));
    stream
}

#[test]
fn text_that_was_packed_is_looked_at_unpacked() {
    assert!(!harmless(&packed_text(b"s8W-u~>")));
    let good = packed_text(b"s8W-!~>");
    assert!(harmless(&good));
    // The filters need not be the last ones.
    let mut more = packed_text(b"s8W-u~>");
    let names = vec![name("FlateDecode"), name("Other"), name("ASCII85Decode")];
    more.dict.set("Filter", Object::Array(names));
    assert!(harmless(&more));
    let mut src = Document::with_version("1.5");
    let content = src.add_object(Object::Stream(good));
    let page = src.add_object(dict(vec![("Contents", Object::Reference(content))]));
    let mut out = Document::with_version("1.5");
    let form = embed_page_as_xobject(&src, page, &mut out).ok().unwrap();
    let mut want = vec![0; 2000];
    want.extend_from_slice(&[255; 4]);
    assert_eq!(out.get_object(form).unwrap().as_stream().unwrap().content, want);
}

#[test]
fn an_empty_stream_with_many_filters_is_embedded() {
    let mut src = Document::with_version("1.5");
    let content = src.add_object(filtered(vec!["FlateDecode"; 3], b""));
    let page = src.add_object(dict(vec![("Contents", Object::Reference(content))]));
    assert!(can_decode(&src, page));
    let mut out = Document::with_version("1.5");
    let form = embed_page_as_xobject(&src, page, &mut out).ok().unwrap();
    assert!(out.get_object(form).unwrap().as_stream().unwrap().content.is_empty());
}

#[test]
fn predictors_work_on_rows_that_can_be_counted() {
    let with = |predictor: i64, columns: i64, colors: i64, bits: i64| {
        let mut stream = filtered(vec!["FlateDecode"], b"x");
        let params = dict(vec![
            ("Predictor", Object::Integer(predictor)),
            ("Columns", Object::Integer(columns)),
            ("Colors", Object::Integer(colors)),
            ("BitsPerComponent", Object::Integer(bits)),
        ]);
        stream.dict.set("DecodeParms", Object::Dictionary(params));
        harmless(&stream)
    };
    assert!(with(12, 600, 3, 8));
    assert!(with(15, -1, -1, -1));
    assert!(with(12, 0x10_0001, 65, 65));
    let most = isize::MAX as i64;
    assert!(with(10, most, 1, 8));
    assert!(with(10, 1, most / 8, 8));
    assert!(!with(11, i64::MAX, 1, 24));
    assert!(!with(13, 1, i64::MAX, 8));
    assert!(!with(14, 1, 3, i64::MAX));
    assert!(with(2, i64::MAX, i64::MAX, i64::MAX));
    assert!(with(16, i64::MAX, i64::MAX, i64::MAX));
}

#[test]
fn pages_that_cannot_be_decoded_are_not_embedded() {
    let mut src = Document::with_version("1.5");
    let good = src.add_object(Stream::new(Dictionary::new(), b"tail".to_vec()));
    let bad = src.add_object(filtered(vec!["ASCII85Decode"], b"s8W-u~>"));
    let list = src.add_object(Object::Array(vec![Object::Reference(good), Object::Reference(bad)]));
    let mut out = Document::with_version("1.5");
    for contents in [
        Object::Reference(bad),
        Object::Reference(list),
        Object::Array(vec![Object::Integer(1), Object::Reference(good), Object::Reference(bad)]),
    ] {
        let page = src.add_object(dict(vec![("Contents", contents)]));
        assert!(!can_decode(&src, page));
        assert!(try_embed_page(&src, page, &mut out).is_none());
    }
    assert_eq!(out.max_id, 0);
    let text = src.add_object(filtered(vec!["ASCII85Decode"], b"87cURD]i,\"Ebo80~>"));
    let page = src.add_object(dict(vec![("Contents", Object::Reference(text))]));
    assert!(can_decode(&src, page));
    let form = embed_page_as_xobject(&src, page, &mut out).ok().unwrap();
    let stream = out.get_object(form).unwrap().as_stream().unwrap();
    assert_eq!(stream.content, b"Hello World!".to_vec());
    assert!(can_decode(&src, (99, 0)) && can_decode(&src, good));
}

fn kids(doc: &Document) -> Vec<ObjectId> {
    doc.page_iter().collect()
}

#[test]
fn a_part_is_laid_out() {
    let (src, ids) = score(&[523.0, 1046.0]);
    let entries = vec![
        (0, strip(700.0, 600.0)),
        (1, strip(800.0, 600.0)),
        (0, strip(500.0, 500.0)),
        (0, strip(400.0, 100.0)),
    ];
    let header = shape(842.0, 742.0);
    let breaks = vec![true, false, false, true];
    let (doc, n) =
        write_one_part(&src, &ids, &entries, Some(&header), &breaks).ok().unwrap();
    assert_eq!(n, 2);
    assert_eq!(doc.version, "1.5");
    let pages = kids(&doc);
    assert_eq!(pages.len(), 2);
    // 770 points less three strips of 100 leave more than the greatest gap.
    assert_eq!(
        String::from_utf8(doc.get_page_content(pages[0]).unwrap()).unwrap(),
        "q\n36 706 523 100 re W n\n1 0 0 1 36 -36 cm\n/X0 Do\nQ\n\
         q\n36 581 523 100 re W n\n1 0 0 1 36 -19 cm\n/X1 Do\nQ\n\
         q\n36 456 523 100 re W n\n0.5 0 0 0.5 36 156 cm\n/X2 Do\nQ"
    );
    assert_eq!(
        String::from_utf8(doc.get_page_content(pages[1]).unwrap()).unwrap(),
        "q\n36 506 523 300 re W n\n1 0 0 1 36 406 cm\n/X3 Do\nQ"
    );
    // Each source page is embedded once.
    let forms: Vec<ObjectId> = doc
        .objects
        .iter()
        .filter(|(_, o)| o.as_stream().map(|s| s.dict.has(b"FormType")).unwrap_or(false))
        .map(|(id, _)| *id)
        .collect();
    assert_eq!(forms.len(), 2);
    let page = doc.get_object(pages[0]).unwrap().as_dict().unwrap();
    let shown = dict(vec![
        ("X0", Object::Reference(forms[0])),
        ("X1", Object::Reference(forms[0])),
        ("X2", Object::Reference(forms[1])),
    ]);
    let want = dict(vec![
        ("Type", name("Page")),
        ("Parent", Object::Reference((1, 0))),
        ("MediaBox", media_box(595.0, 842.0)),
        ("CropBox", media_box(595.0, 842.0)),
        ("Resources", Object::Dictionary(dict(vec![("XObject", Object::Dictionary(shown))]))),
        ("Contents", page.get(b"Contents").unwrap().clone()),
    ]);
    assert_eq!(*page, want);
    let list = doc.get_object((1, 0)).unwrap().as_dict().unwrap();
    assert_eq!(list.get(b"Count").unwrap(), &Object::Integer(2));
    assert_eq!(list.get(b"Type").unwrap(), &name("Pages"));
    let catalog = doc.catalog().unwrap();
    assert_eq!(catalog.get(b"Type").unwrap(), &name("Catalog"));
    assert_eq!(catalog.get(b"Pages").unwrap(), &Object::Reference((1, 0)));
}

#[test]
fn a_part_without_strips_has_no_pages() {
    let (src, ids) = score(&[523.0]);
    let (doc, n) = write_one_part(&src, &ids, &Vec::new(), None, &Vec::new()).ok().unwrap();
    assert_eq!(n, 0);
    assert_eq!(kids(&doc).len(), 0);
    let flat = vec![(0, strip(10.0, 20.0))];
    let (doc, n) = write_one_part(&src, &ids, &flat, None, &vec![true]).ok().unwrap();
    assert_eq!(n, 0);
    assert_eq!(kids(&doc).len(), 0);
}

#[test]
fn a_strip_needs_its_page() {
    let (src, ids) = score(&[523.0]);
    let entries = vec![(0, strip(700.0, 600.0)), (1, strip(700.0, 600.0))];
    assert!(matches!(
        write_one_part(&src, &ids, &entries, None, &vec![true, false]),
        Err(PartError::PageOutOfRange)
    ));
    let bad = vec![(77, 0)];
    assert!(matches!(
        write_one_part(&src, &bad, &vec![(0, strip(2.0, 1.0))], None, &vec![true]),
        Err(PartError::NoPage(_))
    ));
}

fn bands_of(top: f32) -> Vec<(u32, Cut)> {
    (0..6).map(|k| (k / 3, strip(top - 30.0 * k as f32, top - 30.0 * k as f32 - 20.0))).collect()
}

#[test]
fn all_parts_are_made() {
    let (src, _) = score(&[523.0, 523.0]);
    let all = [bands_of(800.0), bands_of(795.0), bands_of(790.0), bands_of(785.0)];
    let header = shape(842.0, 810.0);
    let Outcome { parts, error } = write_parts(&src, &all, Some(&header));
    assert!(error.is_none());
    assert_eq!(parts.len(), 4);
    for (k, part) in parts.iter().enumerate() {
        assert_eq!(part.pages, 1);
        let page = kids(&part.doc)[0];
        let text = String::from_utf8(part.doc.get_page_content(page).unwrap()).unwrap();
        // The header and six strips.
        assert_eq!(text.matches(" Do").count(), 7);
        assert!(text.starts_with("q\n36 774 523 32 re W n\n1 0 0 1 36 -36 cm\n/X0 Do"));
        let top = 800.0 - 5.0 * k as f32;
        let second = text.split("\nq\n").nth(1).unwrap();
        // 774 less the gap of 25 and the strip of 20, down by the band's bottom.
        let want = format!("36 729 523 20 re W n\n1 0 0 1 36 {} cm", 729.0 - (top - 20.0));
        assert!(second.starts_with(&want));
    }
    // High strips go to more pages.
    let high = || -> Vec<(u32, Cut)> { (0..3).map(|_| (0, strip(800.0, 300.0))).collect() };
    let all = [high(), bands_of(795.0), high(), Vec::new()];
    let Outcome { parts, error } = write_parts(&src, &all, None);
    assert!(error.is_none());
    let pages: Vec<usize> = parts.iter().map(|p| p.pages).collect();
    assert_eq!(pages, vec![3, 1, 3, 0]);
}

#[test]
fn the_first_failure_ends_the_parts() {
    let (src, _) = score(&[523.0]);
    let at = |page: u32| vec![(page, strip(700.0, 600.0))];
    let all = [at(0), at(0), at(5), at(0)];
    let Outcome { parts, error } = write_parts(&src, &all, None);
    assert_eq!(parts.len(), 2);
    assert!(matches!(error, Some(PartError::PageOutOfRange)));
    let Attempt { parts, ending } = try_write_parts(&src, &all, None);
    assert_eq!(parts.len(), 2);
    assert!(matches!(ending, Ending::Failed(PartError::PageOutOfRange)));
    let all = [at(0), at(0), at(0), at(0)];
    assert!(matches!(try_write_parts(&src, &all, None).ending, Ending::Complete));
}

#[test]
fn contents_that_cannot_be_decoded_stop_the_parts() {
    let (mut src, ids) = score(&[523.0]);
    let bad = src.add_object(filtered(vec!["ASCII85Decode"], b"s8W-u~>"));
    if let Ok(page) = src.get_object_mut(ids[0]).and_then(|o| o.as_dict_mut()) {
        page.set("Contents", Object::Reference(bad));
    }
    let entries = vec![(0, strip(700.0, 600.0))];
    assert!(try_write_part(&src, &ids, &entries, None, &vec![true]).is_none());
    // The parts before it are there.
    let all = [Vec::new(), entries, Vec::new(), Vec::new()];
    let Attempt { parts, ending } = try_write_parts(&src, &all, None);
    assert_eq!(parts.len(), 1);
    assert!(matches!(ending, Ending::Stopped));
}

#[test]
fn a_whole_page_keeps_its_size() {
    let (src, ids) = score(&[523.0, 700.0]);
    let entries = vec![(0, strip(700.0, 600.0)), (1, Cut::Page), (0, strip(500.0, 400.0))];
    let (doc, n) =
        write_one_part(&src, &ids, &entries, None, &vec![true, false, false]).ok().unwrap();
    assert_eq!(n, 3);
    let pages = kids(&doc);
    let boxes: Vec<Object> = pages
        .iter()
        .map(|&p| doc.get_object(p).unwrap().as_dict().unwrap().get(b"CropBox").unwrap().clone())
        .collect();
    assert_eq!(boxes[0], media_box(595.0, 842.0));
    assert_eq!(boxes[1], media_box(700.0, 842.0));
    assert_eq!(boxes[2], media_box(595.0, 842.0));
    assert_eq!(
        String::from_utf8(doc.get_page_content(pages[1]).unwrap()).unwrap(),
        "q\n0 0 700 842 re W n\n1 0 0 1 0 0 cm\n/X1 Do\nQ"
    );
    // It does so in all the parts, next to a header too.
    let list = || vec![(0, Cut::Page), (1, strip(700.0, 600.0)), (1, Cut::Page)];
    let all = [list(), list(), list(), list()];
    let Outcome { parts, error } = write_parts(&src, &all, Some(&shape(842.0, 800.0)));
    assert!(error.is_none());
    for part in &parts {
        assert_eq!(part.pages, 3);
        let first = part.doc.get_page_content(kids(&part.doc)[0]).unwrap();
        assert_eq!(
            String::from_utf8(first).unwrap(),
            "q\n0 0 523 842 re W n\n1 0 0 1 0 0 cm\n/X0 Do\nQ"
        );
    }
}

#[test]
fn protrusions_are_shown_with_their_strip() {
    let (src, ids) = score(&[523.0]);
    let mut one = shape(700.0, 600.0);
    one.protrusions.push(Protrusion {
        x_left: s(100.0),
        x_right: s(120.0),
        y_top: s(710.0),
        y_bot: s(700.0),
    });
    let entries = vec![(0, Cut::Strip(one))];
    let (doc, _) = write_one_part(&src, &ids, &entries, None, &vec![true]).ok().unwrap();
    assert_eq!(
        String::from_utf8(doc.get_page_content(kids(&doc)[0]).unwrap()).unwrap(),
        "q\n36 706 523 100 re 136 806 20 10 re W n\n1 0 0 1 36 106 cm\n/X0 Do\nQ"
    );
}

#[test]
fn the_pages_are_counted_one_by_one() {
    // A node that claims to have more pages than there can be.
    let (mut src, ids) = score(&[523.0]);
    let inner = src.add_object(dict(vec![
        ("Type", name("Pages")),
        ("Kids", Object::Array(Vec::new())),
        ("Count", Object::Integer(i64::MAX)),
    ]));
    if let Ok(root) = src.get_object_mut((1, 0)).and_then(|o| o.as_dict_mut()) {
        root.set("Kids", Object::Array(vec![Object::Reference(ids[0]), Object::Reference(inner)]));
    }
    let all = [vec![(0, strip(700.0, 600.0))], Vec::new(), Vec::new(), Vec::new()];
    let Outcome { parts, error } = write_parts(&src, &all, None);
    assert!(error.is_none());
    assert_eq!(parts[0].pages, 1);
}

#[test]
fn the_document_of_a_part_holds_together() {
    let (src, _) = score(&[523.0, 400.0, 700.0]);
    let list =
        || -> Vec<(u32, Cut)> { (0..9).map(|k| (k % 3, strip(700.0, 400.0))).collect() };
    let all = [list(), list(), list(), list()];
    let Outcome { parts, .. } = write_parts(&src, &all, Some(&shape(842.0, 800.0)));
    for part in &parts {
        let doc = &part.doc;
        assert_eq!(kids(doc).len(), part.pages);
        for page in kids(doc) {
            let dict = doc.get_object(page).unwrap().as_dict().unwrap();
            let content = dict.get(b"Contents").unwrap().as_reference().unwrap();
            assert!(doc.get_object(content).unwrap().as_stream().is_ok());
            let forms = doc
                .get_dict_in_dict(dict, b"Resources")
                .and_then(|r| r.get(b"XObject"))
                .and_then(|x| x.as_dict())
                .unwrap();
            for (_, form) in forms.iter() {
                let id = form.as_reference().unwrap();
                assert!(doc.get_object(id).unwrap().as_stream().is_ok());
            }
        }
        assert!(doc.objects.keys().all(|id| id.0 <= doc.max_id));
    }
}
