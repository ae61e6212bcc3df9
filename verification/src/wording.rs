//! What the text of a page says when it is read word by word.
use crate::layout::{clip_of, page_text, placement_of, Strip};
use crate::text::{decimal, drawing_text, form_name, operators, path_text, rectangle, Rect};
use vstd::prelude::*;
use vstd::string::*;

verus! {

/// A byte that separates words: a space or the end of a line.
pub open spec fn separates(b: u8) -> bool {
    b == 32 || b == 10
}

/// The words of a text, after some bytes of a word that was begun.
pub open spec fn words_after(begun: Seq<u8>, text: Seq<u8>) -> Seq<Seq<u8>>
    decreases text.len(),
{
    if text.len() == 0 {
        if begun.len() == 0 {
            Seq::empty()
        } else {
            seq![begun]
        }
    } else if separates(text[0]) {
        (if begun.len() == 0 {
            Seq::empty()
        } else {
            seq![begun]
        }) + words_after(Seq::empty(), text.drop_first())
    } else {
        words_after(begun.push(text[0]), text.drop_first())
    }
}

/// The words of a text.
pub open spec fn words(text: Seq<u8>) -> Seq<Seq<u8>> {
    words_after(Seq::empty(), text)
}

/// One word: some bytes, none of which separates words.
pub open spec fn is_word(text: Seq<u8>) -> bool {
    text.len() > 0 && forall|i: int| 0 <= i < text.len() ==> !separates(#[trigger] text[i])
}

proof fn lemma_one_word(begun: Seq<u8>, word: Seq<u8>)
    requires
        forall|i: int| 0 <= i < word.len() ==> !separates(#[trigger] word[i]),
        begun.len() + word.len() > 0,
    ensures
        words_after(begun, word) == seq![begun + word],
    decreases word.len(),
{
    if word.len() == 0 {
        assert(begun + word =~= begun);
    } else {
        let rest = word.drop_first();
        assert(!separates(word[0]));
        assert forall|i: int| 0 <= i < rest.len() implies !separates(#[trigger] rest[i]) by {
            assert(rest[i] == word[i + 1]);
        }
        lemma_one_word(begun.push(word[0]), rest);
        assert(begun.push(word[0]) + rest =~= begun + word);
    }
}

/// Words before a separator and after it are read one after the other.
proof fn lemma_words_split(begun: Seq<u8>, a: Seq<u8>, s: u8, b: Seq<u8>)
    requires
        separates(s),
    ensures
        words_after(begun, a.push(s) + b) == words_after(begun, a) + words(b),
    decreases a.len(),
{
    let text = a.push(s) + b;
    if a.len() == 0 {
        assert(text[0] == s);
        assert(text.drop_first() =~= b);
    } else {
        let rest = a.drop_first();
        assert(text[0] == a[0]);
        assert(text.drop_first() =~= rest.push(s) + b);
        if separates(a[0]) {
            lemma_words_split(Seq::empty(), rest, s, b);
            let head = if begun.len() == 0 {
                Seq::<Seq<u8>>::empty()
            } else {
                seq![begun]
            };
            assert(head + (words(rest) + words(b)) =~= (head + words(rest)) + words(b));
        } else {
            lemma_words_split(begun.push(a[0]), rest, s, b);
        }
    }
}

/// The bytes of the texts that stand between the numbers.
proof fn lemma_texts()
    ensures
        " ".spec_bytes() == seq![32u8],
        " re".spec_bytes() == seq![32u8, 114, 101],
        "re".spec_bytes() == seq![114u8, 101],
        "q".spec_bytes() == seq![113u8],
        "q\n".spec_bytes() == seq![113u8, 10],
        "W".spec_bytes() == seq![87u8],
        "n".spec_bytes() == seq![110u8],
        " W n\n".spec_bytes() == seq![32u8, 87, 32, 110, 10],
        "0".spec_bytes() == seq![48u8],
        " 0 0 ".spec_bytes() == seq![32u8, 48, 32, 48, 32],
        "cm".spec_bytes() == seq![99u8, 109],
        "/".spec_bytes() == seq![47u8],
        " cm\n/".spec_bytes() == seq![32u8, 99, 109, 10, 47],
        "Do".spec_bytes() == seq![68u8, 111],
        "Q".spec_bytes() == seq![81u8],
        " Do\nQ".spec_bytes() == seq![32u8, 68, 111, 10, 81],
{
    broadcast use is_ascii_spec_bytes;

    reveal_strlit(" ");
    reveal_strlit(" re");
    reveal_strlit("re");
    reveal_strlit("q");
    reveal_strlit("q\n");
    reveal_strlit("W");
    reveal_strlit("n");
    reveal_strlit(" W n\n");
    reveal_strlit("0");
    reveal_strlit(" 0 0 ");
    reveal_strlit("cm");
    reveal_strlit("/");
    reveal_strlit(" cm\n/");
    reveal_strlit("Do");
    reveal_strlit("Q");
    reveal_strlit(" Do\nQ");
    assert(is_ascii(" ") && is_ascii(" re") && is_ascii("re") && is_ascii("q") && is_ascii("q\n"));
    assert(is_ascii("W") && is_ascii("n") && is_ascii(" W n\n") && is_ascii("0"));
    assert(is_ascii(" 0 0 ") && is_ascii("cm") && is_ascii("/") && is_ascii(" cm\n/"));
    assert(is_ascii("Do") && is_ascii("Q") && is_ascii(" Do\nQ"));
    assert(" ".spec_bytes() =~= seq![32u8]);
    assert(" re".spec_bytes() =~= seq![32u8, 114, 101]);
    assert("re".spec_bytes() =~= seq![114u8, 101]);
    assert("q".spec_bytes() =~= seq![113u8]);
    assert("q\n".spec_bytes() =~= seq![113u8, 10]);
    assert("W".spec_bytes() =~= seq![87u8]);
    assert("n".spec_bytes() =~= seq![110u8]);
    assert(" W n\n".spec_bytes() =~= seq![32u8, 87, 32, 110, 10]);
    assert("0".spec_bytes() =~= seq![48u8]);
    assert(" 0 0 ".spec_bytes() =~= seq![32u8, 48, 32, 48, 32]);
    assert("cm".spec_bytes() =~= seq![99u8, 109]);
    assert("/".spec_bytes() =~= seq![47u8]);
    assert(" cm\n/".spec_bytes() =~= seq![32u8, 99, 109, 10, 47]);
    assert("Do".spec_bytes() =~= seq![68u8, 111]);
    assert("Q".spec_bytes() =~= seq![81u8]);
    assert(" Do\nQ".spec_bytes() =~= seq![32u8, 68, 111, 10, 81]);
}

/// A word, a separator, and more: the word comes first.
proof fn lemma_word_first(word: Seq<u8>, s: u8, rest: Seq<u8>)
    requires
        is_word(word),
        separates(s),
    ensures
        words(word.push(s) + rest) == seq![word] + words(rest),
{
    lemma_words_split(Seq::empty(), word, s, rest);
    lemma_one_word(Seq::empty(), word);
    assert(Seq::<u8>::empty() + word =~= word);
}

/// A rectangle is read as its left edge, its lower edge, its width and its
/// height, in this order, and the operator that adds it to a path.
pub proof fn lemma_rectangle_reads_back(
    left: Seq<u8>,
    bottom: Seq<u8>,
    width: Seq<u8>,
    height: Seq<u8>,
)
    requires
        is_word(left),
        is_word(bottom),
        is_word(width),
        is_word(height),
    ensures
        words(rectangle(left, bottom, width, height)) == seq![
            left,
            bottom,
            width,
            height,
            "re".spec_bytes(),
        ],
{
    lemma_texts();
    let re = "re".spec_bytes();
    let d = height.push(32) + re;
    let c = width.push(32) + d;
    let b = bottom.push(32) + c;
    let a = left.push(32) + b;
    assert(rectangle(left, bottom, width, height) =~= a);
    lemma_word_first(left, 32, b);
    lemma_word_first(bottom, 32, c);
    lemma_word_first(width, 32, d);
    lemma_word_first(height, 32, re);
    lemma_one_word(Seq::empty(), re);
    assert(Seq::<u8>::empty() + re =~= re);
    assert(seq![left] + (seq![bottom] + (seq![width] + (seq![height] + seq![re]))) =~= seq![
        left,
        bottom,
        width,
        height,
        re,
    ]);
}

/// A drawing is read as it is to be carried out: the state is saved, the
/// path is what is drawn is clipped to, the form is scaled evenly and moved,
/// drawn by its name, and the state is restored.
pub proof fn lemma_drawing_reads_back(
    path: Seq<u8>,
    scale: Seq<u8>,
    move_x: Seq<u8>,
    move_y: Seq<u8>,
    name: Seq<u8>,
)
    requires
        is_word(scale),
        is_word(move_x),
        is_word(move_y),
        is_word(name),
    ensures
        words(operators(path, scale, move_x, move_y, name)) == seq!["q".spec_bytes()] + words(path)
            + seq![
            "W".spec_bytes(),
            "n".spec_bytes(),
            scale,
            "0".spec_bytes(),
            "0".spec_bytes(),
            scale,
            move_x,
            move_y,
            "cm".spec_bytes(),
            "/".spec_bytes() + name,
            "Do".spec_bytes(),
            "Q".spec_bytes(),
        ],
{
    lemma_texts();
    let empty = Seq::<u8>::empty();
    let q = "q".spec_bytes();
    let w = "W".spec_bytes();
    let n = "n".spec_bytes();
    let zero = "0".spec_bytes();
    let cm = "cm".spec_bytes();
    let call = "/".spec_bytes() + name;
    let draw = "Do".spec_bytes();
    let end = "Q".spec_bytes();
    assert(is_word(call)) by {
        assert forall|i: int| 0 <= i < call.len() implies !separates(#[trigger] call[i]) by {
            if i > 0 {
                assert(call[i] == name[i - 1]);
            }
        }
    }
    let k = draw.push(10) + end;
    let j = call.push(32) + k;
    let i = cm.push(10) + j;
    let h = move_y.push(32) + i;
    let g = move_x.push(32) + h;
    let f = scale.push(32) + g;
    let e = zero.push(32) + f;
    let d = zero.push(32) + e;
    let c = scale.push(32) + d;
    let b = n.push(10) + c;
    let a = w.push(32) + b;
    let body = path.push(32) + a;
    assert(operators(path, scale, move_x, move_y, name) =~= q.push(10) + body);
    lemma_word_first(q, 10, body);
    lemma_words_split(empty, path, 32, a);
    lemma_word_first(w, 32, b);
    lemma_word_first(n, 10, c);
    lemma_word_first(scale, 32, d);
    lemma_word_first(zero, 32, e);
    lemma_word_first(zero, 32, f);
    lemma_word_first(scale, 32, g);
    lemma_word_first(move_x, 32, h);
    lemma_word_first(move_y, 32, i);
    lemma_word_first(cm, 10, j);
    lemma_word_first(call, 32, k);
    lemma_word_first(draw, 10, end);
    lemma_one_word(empty, end);
    assert(empty + end =~= end);
    let last = seq![draw] + seq![end];
    let tail = seq![move_x] + (seq![move_y] + (seq![cm] + (seq![call] + last)));
    let mid = seq![w] + (seq![n] + (seq![scale] + (seq![zero] + (seq![zero] + (seq![scale]
        + tail)))));
    assert(mid =~= seq![w, n, scale, zero, zero, scale, move_x, move_y, cm, call, draw, end]);
    assert(seq![q] + (words(path) + mid) =~= seq![q] + words(path) + mid);
}

/// The numbers of a rectangle are words.
pub open spec fn readable(r: Rect) -> bool {
    &&& is_word(decimal(r.left))
    &&& is_word(decimal(r.bottom))
    &&& is_word(decimal(r.width))
    &&& is_word(decimal(r.height))
}

/// A path is read as its rectangles, one after the other, none left out.
pub proof fn lemma_path_reads_back(rects: Seq<Rect>, i: int)
    requires
        forall|j: int| 0 <= j < rects.len() ==> readable(#[trigger] rects[j]),
        0 <= i < rects.len(),
    ensures
        words(path_text(rects)).len() == 5 * rects.len(),
        words(path_text(rects))[5 * i] == decimal(rects[i].left),
        words(path_text(rects))[5 * i + 1] == decimal(rects[i].bottom),
        words(path_text(rects))[5 * i + 2] == decimal(rects[i].width),
        words(path_text(rects))[5 * i + 3] == decimal(rects[i].height),
        words(path_text(rects))[5 * i + 4] == "re".spec_bytes(),
    decreases rects.len(),
{
    let n = rects.len() as int;
    let r = rects.last();
    assert(rects[n - 1] == r);
    assert(readable(rects[n - 1]));
    let text = rectangle(
        decimal(r.left),
        decimal(r.bottom),
        decimal(r.width),
        decimal(r.height),
    );
    lemma_rectangle_reads_back(
        decimal(r.left),
        decimal(r.bottom),
        decimal(r.width),
        decimal(r.height),
    );
    if n > 1 {
        let rest = rects.drop_last();
        assert forall|j: int| 0 <= j < rest.len() implies readable(#[trigger] rest[j]) by {
            assert(rest[j] == rects[j]);
        }
        lemma_texts();
        lemma_words_split(Seq::empty(), path_text(rest), 32, text);
        assert(path_text(rects) =~= path_text(rest).push(32) + text);
        if i < n - 1 {
            lemma_path_reads_back(rest, i);
            assert(rest[i] == rects[i]);
        } else {
            lemma_path_reads_back(rest, 0);
        }
    }
}

/// The text of a page draws its strips in order, each of them once: one more
/// strip adds its own drawing at the end.
pub proof fn lemma_page_text_reads_back(strips: Seq<Strip>, first: nat, k: int)
    requires
        0 < k <= strips.len(),
    ensures
        words(page_text(strips, first, k)) == words(page_text(strips, first, k - 1)) + words(
            drawing_text(
                clip_of(strips, k - 1),
                placement_of(strips, k - 1),
                form_name((first + k - 1) as nat),
            ),
        ),
        words(page_text(strips, first, 0)).len() == 0,
{
    let text = drawing_text(
        clip_of(strips, k - 1),
        placement_of(strips, k - 1),
        form_name((first + k - 1) as nat),
    );
    let before = page_text(strips, first, k - 1);
    if k > 1 {
        broadcast use is_ascii_spec_bytes;

        reveal_strlit("\n");
        assert(is_ascii("\n"));
        assert("\n".spec_bytes() =~= seq![10u8]);
        lemma_words_split(Seq::empty(), before, 10, text);
        assert(page_text(strips, first, k) =~= before.push(10) + text);
    } else {
        assert(before =~= Seq::empty());
        assert(words(before) =~= Seq::empty());
        assert(words(before) + words(text) =~= words(text));
    }
}

} // verus!
