//! The text of a page: numbers in decimal digits, and the drawing of one
//! strip.
use crate::single::Single;
use realfft::num_complex::Complex32;
use realfft::num_traits::FromBytes;
use vstd::prelude::*;
use vstd::string::*;

verus! {

/// A number in decimal digits.
pub uninterp spec fn decimal(x: Single) -> Seq<u8>;

/// Calls the `Display` of a single-precision number through `format`.
/// Claimed is that the text depends on the number alone.
#[verifier::external_body]
fn decimal_text(x: Single) -> (r: Vec<u8>)
    ensures
        r@ == decimal(x),
{
    let number = Complex32::new(FromBytes::from_ne_bytes(&x.bits.to_ne_bytes()), Default::default());
    format!("{}", number.re).into_bytes()
}

/// A whole number in decimal digits.
pub open spec fn digits(n: nat) -> Seq<u8>
    decreases n,
{
    if n < 10 {
        seq![(48 + n) as u8]
    } else {
        digits(n / 10).push((48 + n % 10) as u8)
    }
}

/// The whole number that digits stand for.
spec fn digits_value(s: Seq<u8>) -> int
    decreases s.len(),
{
    if s.len() == 0 {
        0
    } else {
        10 * digits_value(s.drop_last()) + (s.last() - 48)
    }
}

proof fn lemma_digits_value(n: nat)
    ensures
        digits_value(digits(n)) == n,
    decreases n,
{
    if n < 10 {
        assert(digits(n).drop_last() =~= Seq::<u8>::empty());
        reveal_with_fuel(digits_value, 2);
    } else {
        lemma_digits_value(n / 10);
        assert(digits(n).drop_last() =~= digits(n / 10));
    }
}

/// The name by which a page calls its `n`th form.
pub open spec fn form_name(n: nat) -> Seq<u8> {
    "X".spec_bytes() + digits(n)
}

/// Different forms have different names.
pub proof fn lemma_names_differ(a: nat, b: nat)
    requires
        a != b,
    ensures
        form_name(a) != form_name(b),
{
    let x = "X".spec_bytes();
    if form_name(a) == form_name(b) {
        assert(digits(a) =~= form_name(a).skip(x.len() as int));
        assert(digits(b) =~= form_name(b).skip(x.len() as int));
        lemma_digits_value(a);
        lemma_digits_value(b);
    }
}

/// A rectangle on a page, in points.
#[derive(Clone, Copy, Debug, PartialEq, Eq, Structural)]
pub struct Rect {
    pub left: Single,
    pub bottom: Single,
    pub width: Single,
    pub height: Single,
}

/// How a form is shown: scaled and moved.
#[derive(Clone, Copy, Debug, PartialEq, Eq, Structural)]
pub struct Placement {
    pub scale: Single,
    pub move_x: Single,
    pub move_y: Single,
}

/// The operator that adds a rectangle to a path, from the numbers written
/// out.
pub open spec fn rectangle(left: Seq<u8>, bottom: Seq<u8>, width: Seq<u8>, height: Seq<u8>) -> Seq<
    u8,
> {
    let space = " ".spec_bytes();
    left + space + bottom + space + width + space + height + " re".spec_bytes()
}

/// The operators that make a path of rectangles.
pub open spec fn path_text(rects: Seq<Rect>) -> Seq<u8>
    decreases rects.len(),
{
    if rects.len() == 0 {
        Seq::empty()
    } else {
        let r = rects.last();
        let text = rectangle(
            decimal(r.left),
            decimal(r.bottom),
            decimal(r.width),
            decimal(r.height),
        );
        if rects.len() == 1 {
            text
        } else {
            path_text(rects.drop_last()) + " ".spec_bytes() + text
        }
    }
}

/// The operators that draw a form under a name, from the path that it is
/// clipped to and the numbers written out.
pub open spec fn operators(
    path: Seq<u8>,
    scale: Seq<u8>,
    move_x: Seq<u8>,
    move_y: Seq<u8>,
    name: Seq<u8>,
) -> Seq<u8> {
    let space = " ".spec_bytes();
    "q\n".spec_bytes() + path + " W n\n".spec_bytes() + scale + " 0 0 ".spec_bytes() + scale
        + space + move_x + space + move_y + " cm\n/".spec_bytes() + name + " Do\nQ".spec_bytes()
}

/// The operators that draw a form, clipped to rectangles.
pub open spec fn drawing_text(rects: Seq<Rect>, at: Placement, name: Seq<u8>) -> Seq<u8> {
    operators(
        path_text(rects),
        decimal(at.scale),
        decimal(at.move_x),
        decimal(at.move_y),
        name,
    )
}

/// Appends bytes.
pub(crate) fn append_bytes(out: &mut Vec<u8>, bytes: &[u8])
    ensures
        final(out)@ == old(out)@ + bytes@,
{
    let mut i: usize = 0;
    while i < bytes.len()
        invariant
            i <= bytes@.len(),
            out@ == old(out)@ + bytes@.take(i as int),
        decreases bytes@.len() - i,
    {
        out.push(bytes[i]);
        i = i + 1;
        assert(out@ =~= old(out)@ + bytes@.take(i as int));
    }
    assert(bytes@.take(i as int) =~= bytes@);
}

/// Writes a whole number in decimal digits.
fn number_text(n: usize) -> (r: Vec<u8>)
    ensures
        r@ == digits(n as nat),
    decreases n,
{
    if n < 10 {
        let mut r: Vec<u8> = Vec::new();
        r.push(48 + n as u8);
        assert(r@ =~= digits(n as nat));
        r
    } else {
        let mut r = number_text(n / 10);
        r.push(48 + (n % 10) as u8);
        r
    }
}

/// Writes the name by which a page calls its `n`th form.
pub fn name_text(n: usize) -> (r: Vec<u8>)
    ensures
        r@ == form_name(n as nat),
{
    let mut r = "X".as_bytes_vec();
    let number = number_text(n);
    append_bytes(&mut r, number.as_slice());
    r
}

/// Writes the operator that adds a rectangle to a path.
pub fn write_rectangle(left: &Vec<u8>, bottom: &Vec<u8>, width: &Vec<u8>, height: &Vec<u8>) -> (r:
    Vec<u8>)
    ensures
        r@ == rectangle(left@, bottom@, width@, height@),
{
    let space = " ".as_bytes();
    let mut r: Vec<u8> = Vec::new();
    append_bytes(&mut r, left.as_slice());
    assert(r@ =~= left@);
    append_bytes(&mut r, space);
    append_bytes(&mut r, bottom.as_slice());
    append_bytes(&mut r, space);
    append_bytes(&mut r, width.as_slice());
    append_bytes(&mut r, space);
    append_bytes(&mut r, height.as_slice());
    append_bytes(&mut r, " re".as_bytes());
    r
}

/// Writes the operators that draw a form under a name.
pub fn write_operators(
    path: &Vec<u8>,
    scale: &Vec<u8>,
    move_x: &Vec<u8>,
    move_y: &Vec<u8>,
    name: &Vec<u8>,
) -> (r: Vec<u8>)
    ensures
        r@ == operators(path@, scale@, move_x@, move_y@, name@),
{
    let space = " ".as_bytes();
    let mut r = "q\n".as_bytes_vec();
    append_bytes(&mut r, path.as_slice());
    append_bytes(&mut r, " W n\n".as_bytes());
    append_bytes(&mut r, scale.as_slice());
    append_bytes(&mut r, " 0 0 ".as_bytes());
    append_bytes(&mut r, scale.as_slice());
    append_bytes(&mut r, space);
    append_bytes(&mut r, move_x.as_slice());
    append_bytes(&mut r, space);
    append_bytes(&mut r, move_y.as_slice());
    append_bytes(&mut r, " cm\n/".as_bytes());
    append_bytes(&mut r, name.as_slice());
    append_bytes(&mut r, " Do\nQ".as_bytes());
    r
}

/// Writes a path of rectangles.
fn write_path(rects: &Vec<Rect>) -> (r: Vec<u8>)
    ensures
        r@ == path_text(rects@),
{
    let mut r: Vec<u8> = Vec::new();
    let mut i: usize = 0;
    assert(rects@.take(0) =~= Seq::<Rect>::empty());
    while i < rects.len()
        invariant
            i <= rects@.len(),
            r@ == path_text(rects@.take(i as int)),
        decreases rects@.len() - i,
    {
        let c = rects[i];
        let text = write_rectangle(
            &decimal_text(c.left),
            &decimal_text(c.bottom),
            &decimal_text(c.width),
            &decimal_text(c.height),
        );
        if i > 0 {
            append_bytes(&mut r, " ".as_bytes());
        }
        append_bytes(&mut r, text.as_slice());
        proof {
            let next = rects@.take(i + 1);
            assert(next.drop_last() =~= rects@.take(i as int));
            assert(next.last() == c);
            if i == 0 {
                assert(r@ =~= text@);
            }
        }
        i = i + 1;
    }
    assert(rects@.take(i as int) =~= rects@);
    r
}

/// Writes the operators that draw a form, clipped to rectangles.
pub fn write_drawing(rects: &Vec<Rect>, at: Placement, name: &Vec<u8>) -> (r: Vec<u8>)
    ensures
        r@ == drawing_text(rects@, at, name@),
{
    let path = write_path(rects);
    write_operators(
        &path,
        &decimal_text(at.scale),
        &decimal_text(at.move_x),
        &decimal_text(at.move_y),
        name,
    )
}

} // verus!
