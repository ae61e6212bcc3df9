//! Which streams can be decoded: those on which no number of a decoder grows
//! out of its bounds.
use crate::copying::lemma_position;
use crate::pages::{lemma_bytes_differ, lemma_new_key};
use crate::pdf::{
    decompress, entries_of, look_at, lookup, object_of, objects_in, resolved, set_entry, unpacked,
    value_of, values_of, Node, Pieces, Value,
};
use vstd::prelude::*;
use vstd::string::*;

verus! {

/// A group of base-85 digits can be filled up with so many digits 84: each
/// is added without leaving 32 bits, unless the product before it already
/// does, which is noticed.
pub open spec fn fills_up(missing: nat, value: int) -> bool
    decreases missing,
{
    if missing == 0 || value * 85 > u32::MAX {
        true
    } else if value * 85 + 84 > u32::MAX {
        false
    } else {
        fills_up((missing - 1) as nat, value * 85 + 84)
    }
}

/// A byte that base-85 text is spaced with.
pub open spec fn is_space(c: u8) -> bool {
    c == 32 || c == 9 || c == 10 || c == 12 || c == 13
}

/// The groups of base-85 text fit into 32 bits, from byte `i` on, where so
/// many digits of a group with this value came before.
pub open spec fn groups_fit(bytes: Seq<u8>, i: int, count: nat, value: int) -> bool
    decreases bytes.len() - i,
{
    if i >= bytes.len() {
        count == 0 || fills_up((5 - count) as nat, value)
    } else {
        let c = bytes[i];
        if c == 122 {
            count != 0 || groups_fit(bytes, i + 1, 0, 0)
        } else if is_space(c) {
            groups_fit(bytes, i + 1, count, value)
        } else if c < 33 || c > 117 {
            count == 0 || fills_up((5 - count) as nat, value)
        } else if value * 85 > u32::MAX {
            true
        } else if value * 85 + (c - 33) > u32::MAX {
            false
        } else if count == 4 {
            groups_fit(bytes, i + 1, 0, 0)
        } else {
            groups_fit(bytes, i + 1, count + 1, value * 85 + (c - 33))
        }
    }
}

/// The name of the filter for base-85 text.
pub open spec fn base85() -> Value {
    Value::Name("ASCII85Decode".spec_bytes())
}

/// The name of the filter for data that was deflated.
pub open spec fn deflated() -> Value {
    Value::Name("FlateDecode".spec_bytes())
}

/// The name of the filter for data packed with the method of Lempel, Ziv
/// and Welch.
pub open spec fn lzw() -> Value {
    Value::Name("LZWDecode".spec_bytes())
}

/// A filter that is decoded.
pub open spec fn known(filter: Value) -> bool {
    filter == deflated() || filter == lzw() || filter == base85()
}

/// The filters of a stream, where they can be read.
pub open spec fn filters(entries: Seq<(Seq<u8>, Value)>) -> Option<Seq<Value>> {
    match lookup(entries, "Filter".spec_bytes()) {
        Some(Value::Name(name)) => Some(seq![Value::Name(name)]),
        Some(Value::Array(items)) => if forall|i: int|
            0 <= i < items.len() ==> (#[trigger] items[i]) is Name {
            Some(items)
        } else {
            None
        },
        _ => None,
    }
}

/// The parameters of a stream's filters.
pub open spec fn parameters(entries: Seq<(Seq<u8>, Value)>) -> Option<Seq<(Seq<u8>, Value)>> {
    match lookup(entries, "DecodeParms".spec_bytes()) {
        Some(Value::Dictionary(params)) => Some(params),
        _ => None,
    }
}

/// A parameter that is a whole number, but at least so much; that much
/// where there is none.
pub open spec fn setting(params: Seq<(Seq<u8>, Value)>, key: Seq<u8>, least: int) -> int {
    match lookup(params, key) {
        Some(Value::Integer(n)) => if n < least {
            least
        } else {
            n as int
        },
        _ => least,
    }
}

/// A predictor is applied to what was unpacked.
pub open spec fn predicts(params: Seq<(Seq<u8>, Value)>) -> bool {
    match lookup(params, "Predictor".spec_bytes()) {
        Some(Value::Integer(n)) => 10 <= n <= 15,
        _ => false,
    }
}

/// How many bits make a pixel that a predictor works on.
pub open spec fn pixel_bits(params: Seq<(Seq<u8>, Value)>) -> int {
    setting(params, "Colors".spec_bytes(), 1) * setting(
        params,
        "BitsPerComponent".spec_bytes(),
        8,
    )
}

/// How many bytes make a row that a predictor works on.
pub open spec fn row_bytes(params: Seq<(Seq<u8>, Value)>) -> int {
    pixel_bits(params) / 8 * setting(params, "Columns".spec_bytes(), 1)
}

/// The rows that a predictor works on, where there is one, can be counted.
/// Whether one can be held must not depend on the machine: addresses of 32
/// bits count rows that they cannot hold, and others hold these.
pub open spec fn rows_fit(params: Seq<(Seq<u8>, Value)>) -> bool {
    predicts(params) ==> {
        &&& pixel_bits(params) <= usize::MAX
        &&& row_bytes(params) <= usize::MAX
        &&& row_bytes(params) <= isize::MAX || row_bytes(params) > u32::MAX
    }
}

/// Bytes that one filter can be applied to.
pub open spec fn applies(
    filter: Value,
    params: Option<Seq<(Seq<u8>, Value)>>,
    bytes: Seq<u8>,
) -> bool {
    if filter == base85() {
        groups_fit(bytes, 0, 0, 0)
    } else {
        &&& params is Some ==> rows_fit(params->0)
        &&& filter == deflated() ==> 2 * bytes.len() <= isize::MAX
    }
}

/// The entries of a stream with one filter only.
pub open spec fn one_filter(filter: Value, params: Option<Seq<(Seq<u8>, Value)>>) -> Seq<
    (Seq<u8>, Value),
> {
    match params {
        None => seq![("Filter".spec_bytes(), filter)],
        Some(p) => seq![
            ("Filter".spec_bytes(), filter),
            ("DecodeParms".spec_bytes(), Value::Dictionary(p)),
        ],
    }
}

/// Filters, from number `k` on, can be applied one after the other, each to
/// what the one before it gives, up to the first that is not known or that
/// fails.
pub open spec fn all_apply(
    names: Seq<Value>,
    k: int,
    params: Option<Seq<(Seq<u8>, Value)>>,
    bytes: Seq<u8>,
) -> bool
    decreases names.len() - k,
{
    k < names.len() && known(names[k]) ==> {
        &&& applies(names[k], params, bytes)
        &&& match unpacked(one_filter(names[k], params), bytes) {
            Some(next) => all_apply(names, k + 1, params, next),
            None => true,
        }
    }
}

/// A stream with these entries and bytes can be decoded, or is not decoded
/// at all.
pub open spec fn harmless(entries: Seq<(Seq<u8>, Value)>, bytes: Seq<u8>) -> bool {
    match filters(entries) {
        None => true,
        Some(names) => all_apply(names, 0, parameters(entries), bytes),
    }
}

/// What a value stands for, where that is a stream, can be decoded.
pub open spec fn harmless_at(objects: Map<(u32, u16), Value>, v: Value) -> bool {
    match v {
        Value::Reference(id) => match resolved(objects, id) {
            Some(Value::Stream(entries, bytes)) => harmless(entries, bytes),
            _ => true,
        },
        _ => true,
    }
}

/// What each of some values stands for can be decoded.
pub open spec fn all_harmless(objects: Map<(u32, u16), Value>, items: Seq<Value>) -> bool {
    forall|i: int| 0 <= i < items.len() ==> harmless_at(objects, #[trigger] items[i])
}

/// The streams of a page's content can be decoded.
pub open spec fn decodable(objects: Map<(u32, u16), Value>, page: (u32, u16)) -> bool {
    match resolved(objects, page) {
        Some(Value::Dictionary(entries)) => match lookup(entries, "Contents".spec_bytes()) {
            Some(contents) => {
                let list = match contents {
                    Value::Reference(id) => resolved(objects, id),
                    _ => Some(contents),
                };
                &&& harmless_at(objects, contents)
                &&& match list {
                    Some(Value::Array(items)) => all_harmless(objects, items),
                    _ => true,
                }
            },
            None => true,
        },
        _ => true,
    }
}

/// Whether a group of base-85 digits can be filled up.
fn can_fill_up(missing: u32, value: u32) -> (r: bool)
    ensures
        r == fills_up(missing as nat, value as int),
    decreases missing,
{
    if missing == 0 || value as u64 * 85 > u32::MAX as u64 {
        true
    } else if value as u64 * 85 + 84 > u32::MAX as u64 {
        false
    } else {
        can_fill_up(missing - 1, value * 85 + 84)
    }
}

/// Whether the groups of base-85 text fit into 32 bits.
fn do_groups_fit(bytes: &Vec<u8>) -> (r: bool)
    ensures
        r == groups_fit(bytes@, 0, 0, 0),
{
    let mut count: u32 = 0;
    let mut value: u32 = 0;
    let mut i: usize = 0;
    while i < bytes.len()
        invariant
            i <= bytes@.len(),
            count <= 4,
            groups_fit(bytes@, i as int, count as nat, value as int) == groups_fit(
                bytes@,
                0,
                0,
                0,
            ),
        decreases bytes@.len() - i,
    {
        let c: u8 = bytes[i];
        if c == 122 {
            if count != 0 {
                return true;
            }
            value = 0;
        } else if c == 32 || c == 9 || c == 10 || c == 12 || c == 13 {
        } else if c < 33 || c > 117 {
            return count == 0 || can_fill_up(5 - count, value);
        } else {
            let product: u64 = value as u64 * 85;
            if product > u32::MAX as u64 {
                return true;
            }
            let sum: u64 = product + (c - 33) as u64;
            if sum > u32::MAX as u64 {
                return false;
            }
            if count == 4 {
                count = 0;
                value = 0;
            } else {
                count = count + 1;
                value = sum as u32;
            }
        }
        i = i + 1;
    }
    count == 0 || can_fill_up(5 - count, value)
}

/// Whether two runs of bytes are the same.
fn same_bytes(a: &Vec<u8>, b: &[u8]) -> (r: bool)
    ensures
        r == (a@ == b@),
{
    if a.len() != b.len() {
        return false;
    }
    let mut i: usize = 0;
    while i < a.len()
        invariant
            a@.len() == b@.len(),
            i <= a@.len(),
            forall|j: int| 0 <= j < i ==> a@[j] == b@[j],
        decreases a@.len() - i,
    {
        if a[i] != b[i] {
            assert(a@[i as int] != b@[i as int]);
            return false;
        }
        i = i + 1;
    }
    assert(a@ =~= b@);
    true
}

/// Whether an object is a name with this text.
fn is_name(object: &lopdf::Object, text: &str) -> (r: bool)
    ensures
        r == (value_of(*object) == Value::Name(text.spec_bytes())),
{
    match look_at(object) {
        Node::Name(name) => same_bytes(name, text.as_bytes()),
        _ => false,
    }
}

/// A parameter that is a whole number, but at least so much.
fn find_setting(params: &lopdf::Dictionary, key: &str, least: i64) -> (r: i64)
    ensures
        r == setting(entries_of(*params), key.spec_bytes(), least as int),
{
    match params.get(key.as_bytes()) {
        Ok(object) => match look_at(object) {
            Node::Integer(n) => if n < least {
                least
            } else {
                n
            },
            _ => least,
        },
        Err(_) => least,
    }
}

/// Whether the rows that a predictor works on can be counted.
fn do_rows_fit(params: &lopdf::Dictionary) -> (r: bool)
    ensures
        r == rows_fit(entries_of(*params)),
{
    let applied = match params.get("Predictor".as_bytes()) {
        Ok(object) => match look_at(object) {
            Node::Integer(n) => 10 <= n && n <= 15,
            _ => false,
        },
        Err(_) => false,
    };
    if !applied {
        return true;
    }
    let ghost p = entries_of(*params);
    let columns: i64 = find_setting(params, "Columns", 1);
    let colors: i64 = find_setting(params, "Colors", 1);
    let bits: i64 = find_setting(params, "BitsPerComponent", 8);
    assert(1 <= colors * bits <= i64::MAX * i64::MAX) by (nonlinear_arith)
        requires
            1 <= colors <= i64::MAX,
            8 <= bits <= i64::MAX,
    ;
    let pixel: u128 = colors as u128 * bits as u128;
    assert(pixel == pixel_bits(p));
    if pixel > usize::MAX as u128 {
        return false;
    }
    let bytes: u128 = pixel / 8;
    assert(0 <= bytes * columns <= 0x2000_0000_0000_0000 * i64::MAX) by (nonlinear_arith)
        requires
            0 <= bytes <= 0x2000_0000_0000_0000,
            1 <= columns <= i64::MAX,
    ;
    let row: u128 = bytes * columns as u128;
    assert(row == row_bytes(p));
    row <= usize::MAX as u128 && (row <= isize::MAX as u128 || row > u32::MAX as u128)
}

/// Whether a filter can be applied to bytes.
fn does_apply(filter: &lopdf::Object, params: Option<&lopdf::Dictionary>, bytes: &Vec<u8>) -> (r:
    bool)
    ensures
        r == applies(value_of(*filter), params_in(params), bytes@),
{
    if is_name(filter, "ASCII85Decode") {
        return do_groups_fit(bytes);
    }
    let fit = match params {
        Some(p) => do_rows_fit(p),
        None => true,
    };
    fit && (!is_name(filter, "FlateDecode") || bytes.len() <= isize::MAX as usize / 2)
}

/// The entries of a dictionary, where there is one.
spec fn params_in(params: Option<&lopdf::Dictionary>) -> Option<Seq<(Seq<u8>, Value)>> {
    match params {
        Some(p) => Some(entries_of(*p)),
        None => None,
    }
}

/// The dictionary of a stream with one filter only.
fn one_filter_dictionary(filter: &lopdf::Object, params: Option<&lopdf::Dictionary>) -> (dict:
    lopdf::Dictionary)
    ensures
        entries_of(dict) == one_filter(value_of(*filter), params_in(params)),
{
    let mut dict = lopdf::Dictionary::new();
    let ghost e0 = entries_of(dict);
    set_entry(&mut dict, "Filter".as_bytes(), filter.clone());
    proof {
        lemma_new_key(e0, "Filter".spec_bytes(), value_of(*filter));
        assert(entries_of(dict) =~= one_filter(value_of(*filter), None));
    }
    if let Some(p) = params {
        let ghost e1 = entries_of(dict);
        let copy = object_of(Pieces::Dictionary(p.clone()));
        set_entry(&mut dict, "DecodeParms".as_bytes(), copy);
        proof {
            lemma_keys_differ();
            lemma_new_key(e1, "DecodeParms".spec_bytes(), Value::Dictionary(entries_of(*p)));
            assert(entries_of(dict) =~= one_filter(value_of(*filter), params_in(params)));
        }
    }
    dict
}

/// The keys of a stream with one filter differ.
proof fn lemma_keys_differ()
    ensures
        "Filter".spec_bytes() != "DecodeParms".spec_bytes(),
{
    reveal_strlit("Filter");
    reveal_strlit("DecodeParms");
    assert("Filter"@.len() == 6);
    assert("DecodeParms"@.len() == 11);
    lemma_bytes_differ("Filter", "DecodeParms");
}

/// A stream with one filter can be decoded where the filter applies.
proof fn lemma_one_filter(
    filter: Value,
    params: Option<Seq<(Seq<u8>, Value)>>,
    bytes: Seq<u8>,
)
    requires
        filter is Name,
        applies(filter, params, bytes),
    ensures
        harmless(one_filter(filter, params), bytes),
{
    let e = one_filter(filter, params);
    lemma_keys_differ();
    lemma_position(e, "Filter".spec_bytes());
    lemma_position(e, "DecodeParms".spec_bytes());
    assert(e[0].0 == "Filter".spec_bytes());
    if params is Some {
        assert(e[1].0 == "DecodeParms".spec_bytes());
    }
    assert(lookup(e, "Filter".spec_bytes()) == Some(filter));
    assert(parameters(e) == params);
    let names = seq![filter];
    assert(filters(e) == Some(names));
    reveal_with_fuel(all_apply, 2);
}

/// Whether filters can be applied one after the other.
fn do_all_apply(
    names: &Vec<&lopdf::Object>,
    params: Option<&lopdf::Dictionary>,
    content: &Vec<u8>,
    Ghost(filters): Ghost<Seq<Value>>,
) -> (r: bool)
    requires
        filters.len() == names@.len(),
        forall|i: int|
            0 <= i < filters.len() ==> (#[trigger] filters[i]) is Name && filters[i] == value_of(
                *names@[i],
            ),
    ensures
        r == all_apply(filters, 0, params_in(params), content@),
{
    let mut bytes: Vec<u8> = content.clone();
    assert(bytes@ =~= content@);
    let mut k: usize = 0;
    while k < names.len()
        invariant
            filters.len() == names@.len(),
            forall|i: int|
                0 <= i < filters.len() ==> (#[trigger] filters[i]) is Name && filters[i]
                    == value_of(*names@[i]),
            k <= names@.len(),
            all_apply(filters, k as int, params_in(params), bytes@) == all_apply(
                filters,
                0,
                params_in(params),
                content@,
            ),
        decreases names@.len() - k,
    {
        let filter = names[k];
        assert(filters[k as int] == value_of(*filter));
        if !is_name(filter, "FlateDecode") && !is_name(filter, "LZWDecode") && !is_name(
            filter,
            "ASCII85Decode",
        ) {
            return true;
        }
        if !does_apply(filter, params, &bytes) {
            return false;
        }
        if k + 1 == names.len() {
            proof {
                reveal_with_fuel(all_apply, 2);
            }
            return true;
        }
        proof {
            lemma_one_filter(filters[k as int], params_in(params), bytes@);
        }
        match decompress(one_filter_dictionary(filter, params), bytes) {
            Ok(next) => {
                bytes = next;
            },
            Err(_) => {
                return true;
            },
        }
        k = k + 1;
    }
    true
}

/// Whether a stream can be decoded, or is not decoded at all.
pub fn is_harmless(dict: &lopdf::Dictionary, bytes: &Vec<u8>) -> (r: bool)
    ensures
        r == harmless(entries_of(*dict), bytes@),
{
    let filter = match dict.get("Filter".as_bytes()) {
        Ok(object) => object,
        Err(_) => {
            return true;
        },
    };
    let params = match dict.get("DecodeParms".as_bytes()) {
        Ok(object) => match object.as_dict() {
            Ok(p) => Some(p),
            Err(_) => None,
        },
        Err(_) => None,
    };
    assert(params_in(params) == parameters(entries_of(*dict)));
    let mut names: Vec<&lopdf::Object> = Vec::new();
    match look_at(filter) {
        Node::Name(_) => {
            names.push(filter);
            let ghost list = seq![value_of(*filter)];
            do_all_apply(&names, params, bytes, Ghost(list))
        },
        Node::Array(items) => {
            let ghost list = values_of(items@);
            let n: usize = items.len();
            let mut i: usize = 0;
            while i < n
                invariant
                    n == items@.len(),
                    list == values_of(items@),
                    list.len() == n,
                    filters(entries_of(*dict)) == (if forall|j: int|
                        0 <= j < list.len() ==> (#[trigger] list[j]) is Name {
                        Some(list)
                    } else {
                        None
                    }),
                    i <= n,
                    names@.len() == i,
                    forall|j: int|
                        0 <= j < i ==> (#[trigger] list[j]) is Name && list[j] == value_of(
                            *names@[j],
                        ),
                decreases n - i,
            {
                assert(list[i as int] == value_of(items@[i as int]));
                match look_at(&items[i]) {
                    Node::Name(_) => {},
                    _ => {
                        assert(!(list[i as int] is Name));
                        return true;
                    },
                }
                names.push(&items[i]);
                i = i + 1;
            }
            do_all_apply(&names, params, bytes, Ghost(list))
        },
        _ => true,
    }
}

/// Whether what an object stands for can be decoded, where it is a stream.
fn is_harmless_at(src: &lopdf::Document, object: &lopdf::Object) -> (r: bool)
    ensures
        r == harmless_at(objects_in(*src), value_of(*object)),
{
    match look_at(object) {
        Node::Reference(id) => match src.get_object(id) {
            Ok(target) => match look_at(target) {
                Node::Stream(dict, bytes) => is_harmless(dict, bytes),
                _ => true,
            },
            Err(_) => true,
        },
        _ => true,
    }
}

/// Whether the streams of a page's content can be decoded.
pub fn can_decode(src: &lopdf::Document, page: (u32, u16)) -> (r: bool)
    ensures
        r == decodable(objects_in(*src), page),
{
    let object = match src.get_object(page) {
        Ok(o) => o,
        Err(_) => {
            return true;
        },
    };
    let dict = match object.as_dict() {
        Ok(d) => d,
        Err(_) => {
            return true;
        },
    };
    let contents = match dict.get("Contents".as_bytes()) {
        Ok(c) => c,
        Err(_) => {
            return true;
        },
    };
    if !is_harmless_at(src, contents) {
        return false;
    }
    let list = match look_at(contents) {
        Node::Reference(id) => match src.get_object(id) {
            Ok(target) => target,
            Err(_) => {
                return true;
            },
        },
        _ => contents,
    };
    match list.as_array() {
        Err(_) => true,
        Ok(items) => {
            let ghost values = values_of(items@);
            assert(decodable(objects_in(*src), page) == all_harmless(objects_in(*src), values));
            let mut i: usize = 0;
            while i < items.len()
                invariant
                    values == values_of(items@),
                    values.len() == items@.len(),
                    decodable(objects_in(*src), page) == all_harmless(objects_in(*src), values),
                    i <= items@.len(),
                    forall|j: int|
                        0 <= j < i ==> harmless_at(objects_in(*src), #[trigger] values[j]),
                decreases items@.len() - i,
            {
                assert(values[i as int] == value_of(items@[i as int]));
                if !is_harmless_at(src, &items[i]) {
                    assert(!harmless_at(objects_in(*src), values[i as int]));
                    return false;
                }
                i = i + 1;
            }
            true
        },
    }
}

/// The number that five digits of base-85 text stand for, from byte `i` on.
pub open spec fn group_number(bytes: Seq<u8>, i: int) -> int {
    let a = bytes[i] - 33;
    let b = a * 85 + (bytes[i + 1] - 33);
    let c = b * 85 + (bytes[i + 2] - 33);
    let d = c * 85 + (bytes[i + 3] - 33);
    d * 85 + (bytes[i + 4] - 33)
}

/// Base-85 text can be decoded where each of its groups of five digits
/// stands for a number of 32 bits.
pub proof fn lemma_groups_of_five_fit(bytes: Seq<u8>, i: int)
    requires
        0 <= i <= bytes.len(),
        (bytes.len() - i) % 5 == 0,
        forall|j: int| i <= j < bytes.len() ==> 33 <= #[trigger] bytes[j] <= 117,
        forall|j: int|
            i <= j <= bytes.len() - 5 && (j - i) % 5 == 0 ==> #[trigger] group_number(bytes, j)
                <= u32::MAX,
    ensures
        groups_fit(bytes, i, 0, 0),
    decreases bytes.len() - i,
{
    if i < bytes.len() {
        assert(group_number(bytes, i) <= u32::MAX);
        assert forall|j: int|
            i + 5 <= j <= bytes.len() - 5 && (j - (i + 5)) % 5 == 0 implies #[trigger] group_number(
            bytes,
            j,
        ) <= u32::MAX by {
            assert((j - i) % 5 == 0);
        }
        lemma_groups_of_five_fit(bytes, i + 5);
        assert(33 <= bytes[i] <= 117);
        assert(33 <= bytes[i + 1] <= 117);
        assert(33 <= bytes[i + 2] <= 117);
        assert(33 <= bytes[i + 3] <= 117);
        assert(33 <= bytes[i + 4] <= 117);
        let a = bytes[i] - 33;
        let b = a * 85 + (bytes[i + 1] - 33);
        let c = b * 85 + (bytes[i + 2] - 33);
        let d = c * 85 + (bytes[i + 3] - 33);
        assert(0 <= a && 0 <= b && 0 <= c && 0 <= d);
        assert(groups_fit(bytes, i + 4, 4, d));
        assert(groups_fit(bytes, i + 3, 3, c));
        assert(groups_fit(bytes, i + 2, 2, b));
        assert(groups_fit(bytes, i + 1, 1, a));
    }
}

/// Base-85 text is not to be decoded where the last digit of a group takes
/// its number out of 32 bits.
pub proof fn lemma_large_groups_do_not_fit(bytes: Seq<u8>, i: int)
    requires
        0 <= i <= bytes.len() - 5,
        forall|j: int| i <= j < i + 5 ==> 33 <= #[trigger] bytes[j] <= 117,
        group_number(bytes, i) > u32::MAX,
        group_number(bytes, i) - (bytes[i + 4] - 33) <= u32::MAX,
    ensures
        !groups_fit(bytes, i, 0, 0),
{
    assert(33 <= bytes[i] <= 117);
    assert(33 <= bytes[i + 1] <= 117);
    assert(33 <= bytes[i + 2] <= 117);
    assert(33 <= bytes[i + 3] <= 117);
    assert(33 <= bytes[i + 4] <= 117);
    let a = bytes[i] - 33;
    let b = a * 85 + (bytes[i + 1] - 33);
    let c = b * 85 + (bytes[i + 2] - 33);
    let d = c * 85 + (bytes[i + 3] - 33);
    assert(0 <= a && 0 <= b && 0 <= c && 0 <= d);
    assert(!groups_fit(bytes, i + 4, 4, d));
    assert(!groups_fit(bytes, i + 3, 3, c));
    assert(!groups_fit(bytes, i + 2, 2, b));
    assert(!groups_fit(bytes, i + 1, 1, a));
}

/// A stream without a filter, and one that is only deflated, without
/// parameters, can always be decoded, up to half of what memory can hold.
pub proof fn lemma_plain_streams_are_harmless(entries: Seq<(Seq<u8>, Value)>, bytes: Seq<u8>)
    requires
        lookup(entries, "Filter".spec_bytes()) is None || (lookup(entries, "Filter".spec_bytes())
            == Some(Value::Name("FlateDecode".spec_bytes())) && lookup(
            entries,
            "DecodeParms".spec_bytes(),
        ) is None),
        2 * bytes.len() <= isize::MAX,
    ensures
        harmless(entries, bytes),
{
    if lookup(entries, "Filter".spec_bytes()) is Some {
        reveal_strlit("FlateDecode");
        reveal_strlit("ASCII85Decode");
        assert("FlateDecode"@.len() == 11);
        assert("ASCII85Decode"@.len() == 13);
        lemma_bytes_differ("FlateDecode", "ASCII85Decode");
        let names = filters(entries)->0;
        assert(names.len() == 1);
        assert(names[0] == deflated());
        match unpacked(one_filter(names[0], None), bytes) {
            Some(next) => {
                assert(all_apply(names, 1, None, next));
            },
            None => {},
        }
    }
}

} // verus!
