//! Weights from one file format on their way to another.

use safetensors::{SafeTensorError, SafeTensors};

use crate::json::{
    entries_of, lemma_array, lemma_object, parse_record, parsed_record, tree_of, trees_of,
    write_record, written_record, Json, Tree,
};
use crate::text::{
    chars_of, decimal, decimal_text, fields, is_text, number_upto, parse_usize, split_fields,
    string_of, texts,
};
use vstd::prelude::*;
use vstd::utf8::{decode_utf8, valid_utf8};

verus! {

// ---------------------------------------------------------------------------
// Numbers
// ---------------------------------------------------------------------------
/// The number whose bytes these are, the lowest first.
pub open spec fn le_bytes(a: u8, b: u8, c: u8, d: u8) -> int {
    a + 0x100 * b + 0x10000 * c + 0x1000000 * d
}

/// The bits of the numbers in a byte string, four bytes each; what is left over is
/// dropped.
pub open spec fn number_bits(bytes: Seq<u8>) -> Seq<u32> {
    Seq::new(
        bytes.len() / 4,
        |i: int|
            le_bytes(bytes[4 * i], bytes[4 * i + 1], bytes[4 * i + 2], bytes[4 * i + 3]) as u32,
    )
}

/// Reads the bits of single-precision numbers.
pub fn bytes_to_f32(bytes: &Vec<u8>) -> (data: Vec<u32>)
    ensures
        data@ == number_bits(bytes@),
{
    let count = bytes.len() / 4;
    let mut data: Vec<u32> = Vec::with_capacity(count);
    let mut i: usize = 0;
    while i < count
        invariant
            i <= count,
            count == bytes@.len() / 4,
            data@ == number_bits(bytes@).take(i as int),
        decreases count - i,
    {
        assert(bytes.len() == bytes@.len());
        let a = bytes[4 * i] as u32;
        let b = bytes[4 * i + 1] as u32;
        let c = bytes[4 * i + 2] as u32;
        let d = bytes[4 * i + 3] as u32;
        data.push(a + 0x100 * b + 0x10000 * c + 0x1000000 * d);
        i += 1;
        assert(data@ =~= number_bits(bytes@).take(i as int));
    }
    assert(data@ =~= number_bits(bytes@));
    data
}

/// `out` is `data`, rows and columns exchanged.
pub open spec fn is_transposed(data: Seq<u32>, rows: int, cols: int, out: Seq<u32>) -> bool {
    &&& out.len() == rows * cols
    &&& forall|r: int, c: int|
        0 <= r < rows && 0 <= c < cols ==> #[trigger] out[c * rows + r] == data[r * cols + c]
}

/// An entry of a table lies inside it.
proof fn lemma_entry_inside(r: int, c: int, rows: int, cols: int)
    by (nonlinear_arith)
    requires
        0 <= r < rows,
        0 <= c < cols,
    ensures
        0 <= r * cols + c < rows * cols,
        0 <= c * rows + r < rows * cols,
{
}

/// Different entries lie in different places.
proof fn lemma_entries_apart(r: int, c: int, s: int, d: int, rows: int)
    by (nonlinear_arith)
    requires
        0 <= r < rows,
        0 <= s < rows,
        c * rows + r == d * rows + s,
    ensures
        c == d,
        r == s,
{
}

/// Exchanges the rows and columns of a table.
pub fn transpose_2d(data: &Vec<u32>, rows: usize, cols: usize) -> (out: Vec<u32>)
    requires
        rows * cols <= data@.len(),
    ensures
        is_transposed(data@, rows as int, cols as int, out@),
{
    assert(data.len() == data@.len());
    let total = rows * cols;
    let mut out: Vec<u32> = Vec::with_capacity(total);
    let mut k: usize = 0;
    while k < total
        invariant
            k <= total,
            out@.len() == k,
        decreases total - k,
    {
        out.push(0);
        k += 1;
    }
    let mut r: usize = 0;
    while r < rows
        invariant
            r <= rows,
            rows * cols <= data@.len(),
            total == rows * cols,
            out@.len() == total,
            forall|i: int, c: int|
                0 <= i < r && 0 <= c < cols ==> #[trigger] out@[c * rows + i] == data@[i * cols + c],
        decreases rows - r,
    {
        let mut c: usize = 0;
        while c < cols
            invariant
                r < rows,
                c <= cols,
                rows * cols <= data@.len(),
                total == rows * cols,
                out@.len() == total,
                forall|i: int, j: int|
                    0 <= i < r && 0 <= j < cols ==> #[trigger] out@[j * rows + i] == data@[i * cols
                        + j],
                forall|j: int|
                    0 <= j < c ==> #[trigger] out@[j * rows + r] == data@[r * cols + j],
            decreases cols - c,
        {
            proof {
                lemma_entry_inside(r as int, c as int, rows as int, cols as int);
                assert(data.len() == data@.len());
                assert(out.len() == out@.len());
                assert(c * rows >= 0 && r * cols >= 0) by (nonlinear_arith);
            }
            let ghost before = out@;
            out.set(c * rows + r, data[r * cols + c]);
            proof {
                assert forall|i: int, j: int|
                    0 <= i < r && 0 <= j < cols implies #[trigger] out@[j * rows + i] == data@[i
                    * cols + j] by {
                    lemma_entry_inside(i, j, rows as int, cols as int);
                    if j * rows + i == c * rows + r {
                        lemma_entries_apart(i, j, r as int, c as int, rows as int);
                    }
                    assert(before[j * rows + i] == data@[i * cols + j]);
                }
                assert forall|j: int| 0 <= j < c implies #[trigger] out@[j * rows + r] == data@[r
                    * cols + j] by {
                    lemma_entry_inside(r as int, j, rows as int, cols as int);
                    if j * rows + r == c * rows + r {
                        lemma_entries_apart(r as int, j, r as int, c as int, rows as int);
                    }
                    assert(before[j * rows + r] == data@[r * cols + j]);
                }
            }
            c += 1;
        }
        r += 1;
    }
    out
}

/// Exchanging rows and columns twice gives the table back.
pub proof fn law_transposing_twice(
    data: Seq<u32>,
    rows: int,
    cols: int,
    once: Seq<u32>,
    twice: Seq<u32>,
)
    requires
        rows > 0,
        cols > 0,
        data.len() == rows * cols,
        is_transposed(data, rows, cols, once),
        is_transposed(once, cols, rows, twice),
    ensures
        twice == data,
{
    assert(rows * cols == cols * rows) by (nonlinear_arith);
    assert forall|k: int| 0 <= k < data.len() implies #[trigger] twice[k] == data[k] by {
        let r = k / cols;
        let c = k % cols;
        assert(k == r * cols + c && 0 <= c < cols && 0 <= r < rows) by (nonlinear_arith)
            requires
                r == k / cols,
                c == k % cols,
                cols > 0,
                0 <= k < rows * cols,
        ;
        assert(once[c * rows + r] == data[r * cols + c]);
        assert(twice[r * cols + c] == once[c * rows + r]);
    }
    assert(twice =~= data);
}

// ---------------------------------------------------------------------------
// Names
// ---------------------------------------------------------------------------
/// The text holds the other one at `i`.
pub open spec fn holds_at(s: Seq<char>, part: Seq<char>, i: int) -> bool {
    &&& 0 <= i <= s.len() - part.len()
    &&& s.subrange(i, i + part.len()) == part
}

/// The text holds the other one.
pub open spec fn holds(s: Seq<char>, part: Seq<char>) -> bool {
    exists|i: int| holds_at(s, part, i)
}

/// Looks for a text in another.
pub fn contains_text(s: &Vec<char>, part: &str) -> (found: bool)
    ensures
        found == holds(s@, part@),
{
    let p = chars_of(part);
    if p.len() > s.len() {
        return false;
    }
    let last = s.len() - p.len();
    let mut i: usize = 0;
    loop
        invariant
            i <= last,
            p@ == part@,
            last == s@.len() - p@.len(),
            s.len() == s@.len(),
            forall|j: int| 0 <= j < i ==> !holds_at(s@, part@, j),
        decreases last - i,
    {
        let mut k: usize = 0;
        while k < p.len() && s[i + k] == p[k]
            invariant
                k <= p@.len(),
                i <= last,
                last == s@.len() - p@.len(),
                s.len() == s@.len(),
                forall|j: int| 0 <= j < k ==> s@[i + j] == p@[j],
            decreases p@.len() - k,
        {
            k += 1;
        }
        if k == p.len() {
            assert(s@.subrange(i as int, i + p@.len()) =~= p@);
            assert(holds_at(s@, part@, i as int));
            return true;
        }
        assert(!holds_at(s@, part@, i as int)) by {
            assert(s@.subrange(i as int, i + p@.len())[k as int] == s@[i + k]);
        }
        if i == last {
            assert forall|j: int| !holds_at(s@, part@, j) by {
                if 0 <= j <= last {
                }
            }
            return false;
        }
        i += 1;
    }
}

/// Running statistics are not carried over.
pub open spec fn is_statistic(name: Seq<char>) -> bool {
    holds(name, "num_batches_tracked"@) || holds(name, "running_"@)
}

/// The weights of a linear layer, which the two formats keep transposed.
pub open spec fn is_linear_weight(name: Seq<char>) -> bool {
    &&& holds(name, "policy_head"@) || holds(name, "fc1"@) || holds(name, "value_head"@)
    &&& holds(name, "weight"@)
}

/// The key for the part `i` of a name: in a batch normalisation the weight is called
/// gamma and the bias beta.
pub open spec fn target_key(parts: Seq<Seq<char>>, i: int) -> Seq<char> {
    let part = parts[i];
    if i > 0 && holds(parts[i - 1], "bn"@) {
        if part == "weight"@ {
            "gamma"@
        } else if part == "bias"@ {
            "beta"@
        } else {
            part
        }
    } else {
        part
    }
}

/// A step on the way to a tensor's place.
pub enum PathKey {
    /// Into the list of residual blocks.
    Blocks,
    /// Into a list by its index, or into an object by the index as its key.
    Index { index: usize, key: String },
    /// Into an object.
    Key { key: String },
}

/// The step that a key stands for.
pub open spec fn is_step_for(step: PathKey, key: Seq<char>) -> bool {
    match step {
        PathKey::Blocks => key == "res_blocks"@,
        PathKey::Index { index, key: text } => {
            &&& key != "res_blocks"@
            &&& number_upto(key, usize::MAX as int) == Some(index as int)
            &&& text@ == key
        },
        PathKey::Key { key: text } => {
            &&& key != "res_blocks"@
            &&& number_upto(key, usize::MAX as int) is None
            &&& text@ == key
        },
    }
}

/// The path of a tensor, by the parts of its name.
pub fn path_of(name: &Vec<char>) -> (path: Vec<PathKey>)
    ensures
        path@.len() == fields(name@, '.').len(),
        forall|i: int|
            0 <= i < path@.len() ==> is_step_for(
                #[trigger] path@[i],
                target_key(fields(name@, '.'), i),
            ),
{
    let parts = split_fields(name, '.');
    let ghost source = texts(parts@);
    let mut path: Vec<PathKey> = Vec::new();
    let mut i: usize = 0;
    while i < parts.len()
        invariant
            i <= parts@.len(),
            source == texts(parts@),
            path@.len() == i,
            forall|j: int|
                0 <= j < i ==> is_step_for(#[trigger] path@[j], target_key(source, j)),
        decreases parts@.len() - i,
    {
        let part = &parts[i];
        assert(source[i as int] == part@);
        assert(i > 0 ==> source[i - 1] == parts@[i - 1]@);
        let in_norm = i > 0 && contains_text(&parts[i - 1], "bn");
        let key: Vec<char> = if in_norm && is_text(part, "weight") {
            chars_of("gamma")
        } else if in_norm && is_text(part, "bias") {
            chars_of("beta")
        } else {
            copy_text(part)
        };
        assert(key@ == target_key(source, i as int));
        let step = if is_text(&key, "res_blocks") {
            PathKey::Blocks
        } else {
            match parse_usize(&key) {
                Some(index) => PathKey::Index { index, key: string_of(&key) },
                None => PathKey::Key { key: string_of(&key) },
            }
        };
        path.push(step);
        i += 1;
    }
    path
}

fn copy_text(s: &Vec<char>) -> (out: Vec<char>)
    ensures
        out@ == s@,
{
    let mut out: Vec<char> = Vec::with_capacity(s.len());
    let mut i: usize = 0;
    while i < s.len()
        invariant
            i <= s@.len(),
            out@ == s@.take(i as int),
        decreases s@.len() - i,
    {
        out.push(s[i]);
        i += 1;
        assert(out@ =~= s@.take(i as int));
    }
    assert(out@ =~= s@);
    out
}

// ---------------------------------------------------------------------------
// Tensors
// ---------------------------------------------------------------------------
/// A tensor as it is stored: its name, its shape and its bytes.
pub struct RawTensor {
    pub name: String,
    pub shape: Vec<usize>,
    pub data: Vec<u8>,
}

/// A tensor as it is to be stored.
pub struct Prepared {
    pub name: String,
    pub path: Vec<PathKey>,
    pub shape: Vec<usize>,
    /// The bits of its numbers.
    pub data: Vec<u32>,
}

/// What becomes of a tensor.
pub enum Preparation {
    /// It is not carried over.
    Dropped,
    /// It is a linear layer without two dimensions, or with fewer numbers than they tell.
    Malformed,
    Ready(Prepared),
}

/// The linear layer can be transposed.
pub open spec fn is_table(shape: Seq<usize>, data: Seq<u8>) -> bool {
    shape.len() >= 2 && shape[0] * shape[1] <= data.len() / 4
}

/// The tensor is prepared: it keeps its name, has the path that its name tells, and a
/// linear layer is transposed.
pub open spec fn is_prepared(tensor: RawTensor, prepared: Prepared) -> bool {
    &&& prepared.name@ == tensor.name@
    &&& prepared.path@.len() == fields(tensor.name@, '.').len()
    &&& forall|i: int|
        0 <= i < prepared.path@.len() ==> is_step_for(
            #[trigger] prepared.path@[i],
            target_key(fields(tensor.name@, '.'), i),
        )
    &&& if is_linear_weight(tensor.name@) {
        &&& is_table(tensor.shape@, tensor.data@)
        &&& prepared.shape@ == seq![tensor.shape@[1], tensor.shape@[0]]
        &&& is_transposed(
            number_bits(tensor.data@),
            tensor.shape@[0] as int,
            tensor.shape@[1] as int,
            prepared.data@,
        )
    } else {
        &&& prepared.shape@ == tensor.shape@
        &&& prepared.data@ == number_bits(tensor.data@)
    }
}

/// The tensor is to be carried over, but cannot be transposed as it has to.
pub open spec fn is_malformed(tensor: RawTensor) -> bool {
    &&& !is_statistic(tensor.name@)
    &&& is_linear_weight(tensor.name@)
    &&& !is_table(tensor.shape@, tensor.data@)
}

/// Prepares a tensor for its place.
pub fn prepare(tensor: &RawTensor) -> (preparation: Preparation)
    ensures
        match preparation {
            Preparation::Dropped => is_statistic(tensor.name@),
            Preparation::Malformed => is_malformed(*tensor),
            Preparation::Ready(prepared) => {
                &&& !is_statistic(tensor.name@)
                &&& is_prepared(*tensor, prepared)
            },
        },
{
    let name = chars_of(tensor.name.as_str());
    if contains_text(&name, "num_batches_tracked") || contains_text(&name, "running_") {
        return Preparation::Dropped;
    }
    let path = path_of(&name);
    let mut data = bytes_to_f32(&tensor.data);
    let mut shape: Vec<usize> = Vec::new();
    if (contains_text(&name, "policy_head") || contains_text(&name, "fc1") || contains_text(
        &name,
        "value_head",
    )) && contains_text(&name, "weight") {
        if tensor.shape.len() < 2 {
            return Preparation::Malformed;
        }
        let out_f = tensor.shape[0];
        let in_f = tensor.shape[1];
        match out_f.checked_mul(in_f) {
            None => {
                assert(tensor.data.len() == tensor.data@.len());
                return Preparation::Malformed;
            },
            Some(total) => if total > data.len() {
                return Preparation::Malformed;
            },
        }
        data = transpose_2d(&data, out_f, in_f);
        shape.push(in_f);
        shape.push(out_f);
        assert(shape@ =~= seq![tensor.shape@[1], tensor.shape@[0]]);
    } else {
        let mut i: usize = 0;
        while i < tensor.shape.len()
            invariant
                i <= tensor.shape@.len(),
                shape@ == tensor.shape@.take(i as int),
            decreases tensor.shape@.len() - i,
        {
            shape.push(tensor.shape[i]);
            i += 1;
            assert(shape@ =~= tensor.shape@.take(i as int));
        }
        assert(shape@ =~= tensor.shape@);
    }
    Preparation::Ready(Prepared { name: string_of(&name), path, shape, data })
}

/// The tensors to be carried over, in their order.
pub open spec fn carried(tensors: Seq<RawTensor>) -> Seq<RawTensor> {
    tensors.filter(|t: RawTensor| !is_statistic(t.name@))
}

/// Prepares all tensors but the running statistics, or tells the first malformed one.
pub fn prepare_all(tensors: &Vec<RawTensor>) -> (all: Result<Vec<Prepared>, usize>)
    ensures
        match all {
            Ok(v) => {
                &&& forall|i: int| 0 <= i < tensors@.len() ==> !is_malformed(#[trigger] tensors@[i])
                &&& v@.len() == carried(tensors@).len()
                &&& forall|i: int|
                    0 <= i < v@.len() ==> is_prepared(carried(tensors@)[i], #[trigger] v@[i])
            },
            Err(k) => {
                &&& k < tensors@.len()
                &&& is_malformed(tensors@[k as int])
                &&& forall|i: int| 0 <= i < k ==> !is_malformed(#[trigger] tensors@[i])
            },
        },
{
    let ghost keep = |t: RawTensor| !is_statistic(t.name@);
    let mut all: Vec<Prepared> = Vec::new();
    let mut i: usize = 0;
    assert(tensors@.take(0).filter(keep) =~= Seq::<RawTensor>::empty()) by {
        reveal_with_fuel(Seq::filter, 1);
    }
    while i < tensors.len()
        invariant
            i <= tensors@.len(),
            keep == (|t: RawTensor| !is_statistic(t.name@)),
            forall|j: int| 0 <= j < i ==> !is_malformed(#[trigger] tensors@[j]),
            all@.len() == tensors@.take(i as int).filter(keep).len(),
            forall|j: int|
                0 <= j < all@.len() ==> is_prepared(
                    tensors@.take(i as int).filter(keep)[j],
                    #[trigger] all@[j],
                ),
        decreases tensors@.len() - i,
    {
        let ghost before = tensors@.take(i as int).filter(keep);
        let ghost after = tensors@.take(i + 1).filter(keep);
        proof {
            let next = tensors@.take(i + 1);
            assert(next.drop_last() =~= tensors@.take(i as int));
            assert(next.last() == tensors@[i as int]);
            reveal_with_fuel(Seq::filter, 1);
            assert(after == (if keep(tensors@[i as int]) {
                before.push(tensors@[i as int])
            } else {
                before
            }));
        }
        match prepare(&tensors[i]) {
            Preparation::Dropped => {},
            Preparation::Malformed => {
                return Err(i);
            },
            Preparation::Ready(prepared) => {
                all.push(prepared);
            },
        }
        i += 1;
    }
    assert(tensors@.take(i as int) =~= tensors@);
    Ok(all)
}

// ---------------------------------------------------------------------------
// The record
// ---------------------------------------------------------------------------
/// The first of the first `n` entries with that key.
pub open spec fn find_key(entries: Seq<(Seq<char>, Tree)>, key: Seq<char>, n: int) -> Option<int>
    decreases n,
{
    if n <= 0 {
        None
    } else {
        match find_key(entries, key, n - 1) {
            Some(i) => Some(i),
            None => if entries[n - 1].0 == key {
                Some(n - 1)
            } else {
                None
            },
        }
    }
}

/// The value has an entry with that key.
pub open spec fn key_index(t: Tree, key: Seq<char>) -> Option<int> {
    match t {
        Tree::Object(entries) => find_key(entries, key, entries.len() as int),
        _ => None,
    }
}

/// The entries of an object with the given key among them, and where it is. A missing
/// key comes last, with nothing behind it, and nothing at all is an empty object. No
/// other value can have keys.
pub open spec fn with_key(t: Tree, key: Seq<char>) -> Option<(Seq<(Seq<char>, Tree)>, int)> {
    match t {
        Tree::Null => Some((seq![(key, Tree::Null)], 0)),
        Tree::Object(entries) => match find_key(entries, key, entries.len() as int) {
            Some(i) => Some((entries, i)),
            None => Some((entries.push((key, Tree::Null)), entries.len() as int)),
        },
        _ => None,
    }
}

/// The value with something else behind a key.
pub open spec fn with_value(t: Tree, key: Seq<char>, value: Tree) -> Option<Tree> {
    match with_key(t, key) {
        None => None,
        Some((entries, i)) => Some(Tree::Object(entries.update(i, (entries[i].0, value)))),
    }
}

/// The value with its numbers and its shape put in.
pub open spec fn stored(t: Tree, value: Tree, shape: Tree) -> Option<Tree> {
    match with_value(t, "value"@, value) {
        None => None,
        Some(u) => with_value(u, "shape"@, shape),
    }
}

/// What stands behind a key.
pub open spec fn value_at(t: Tree, key: Seq<char>) -> Option<Tree> {
    match key_index(t, key) {
        Some(i) => Some(t->Object_0[i].1),
        None => None,
    }
}

/// Looking for a key depends on the keys alone.
proof fn lemma_find_by_keys(
    a: Seq<(Seq<char>, Tree)>,
    b: Seq<(Seq<char>, Tree)>,
    key: Seq<char>,
    n: int,
)
    requires
        0 <= n <= a.len(),
        n <= b.len(),
        forall|i: int| 0 <= i < n ==> (#[trigger] a[i]).0 == b[i].0,
    ensures
        find_key(a, key, n) == find_key(b, key, n),
    decreases n,
{
    if n > 0 {
        lemma_find_by_keys(a, b, key, n - 1);
        assert(a[n - 1].0 == b[n - 1].0);
    }
}

/// Putting something behind a key changes nothing behind the others.
proof fn lemma_with_value(t: Tree, key: Seq<char>, value: Tree, other: Seq<char>)
    requires
        with_value(t, key, value) is Some,
        other != key,
    ensures
        value_at(with_value(t, key, value)->0, key) == Some(value),
        value_at(with_value(t, key, value)->0, other) == value_at(t, other),
{
    let (entries, i) = with_key(t, key)->0;
    let u = entries.update(i, (entries[i].0, value));
    let n = entries.len() as int;
    reveal_with_fuel(find_key, 2);
    match t {
        Tree::Object(source) => {
            let m = source.len() as int;
            lemma_found_inside(source, key, m);
            lemma_found_inside(source, other, m);
            lemma_find_by_keys(entries, u, key, n);
            lemma_find_by_keys(entries, u, other, n);
            lemma_find_by_keys(source, entries, key, m);
            lemma_find_by_keys(source, entries, other, m);
        },
        _ => {},
    }
}

/// The numbers and the shape that are put in are found there, and nothing else in the
/// value is touched.
pub proof fn law_what_is_stored_is_found(t: Tree, value: Tree, shape: Tree, other: Seq<char>)
    requires
        stored(t, value, shape) is Some,
        other != "value"@,
        other != "shape"@,
    ensures
        value_at(stored(t, value, shape)->0, "value"@) == Some(value),
        value_at(stored(t, value, shape)->0, "shape"@) == Some(shape),
        value_at(stored(t, value, shape)->0, other) == value_at(t, other),
{
    reveal_strlit("value");
    reveal_strlit("shape");
    assert("value"@[0] != "shape"@[0]);
    let u = with_value(t, "value"@, value)->0;
    lemma_with_value(t, "value"@, value, other);
    lemma_with_value(u, "shape"@, shape, other);
    lemma_with_value(u, "shape"@, shape, "value"@);
}

/// What came of putting a tensor in its place.
#[derive(Copy, Clone, Debug, PartialEq, Eq, Structural)]
pub enum Injection {
    /// The way there was gone to its end.
    Done,
    /// The record has no such key.
    PassedOver,
    /// The record holds something there that has no such part.
    Broken,
}

/// The end of the way: numbers and shape go into the `item`, if there is one, and else
/// into the value itself.
pub open spec fn settled(t: Tree, value: Tree, shape: Tree) -> (Tree, Injection) {
    match key_index(t, "item"@) {
        Some(i) => {
            let entries = t->Object_0;
            match stored(entries[i].1, value, shape) {
                Some(item) => (
                    Tree::Object(entries.update(i, (entries[i].0, item))),
                    Injection::Done,
                ),
                None => (t, Injection::Broken),
            }
        },
        None => match stored(t, value, shape) {
            Some(u) => (u, Injection::Done),
            None => (t, Injection::Broken),
        },
    }
}

/// Where a step leads.
pub enum Place {
    /// To an item of an array.
    Item(Seq<Tree>, int),
    /// To an entry of an object.
    Entry(Seq<(Seq<char>, Tree)>, int),
    Missing,
    Broken,
}

/// Where a key leads.
pub open spec fn place_by_key(t: Tree, key: Seq<char>) -> Place {
    match with_key(t, key) {
        Some((entries, i)) => Place::Entry(entries, i),
        None => Place::Broken,
    }
}

/// Where a step leads: an index into an array, or into anything else by its key; a key
/// only where it is.
pub open spec fn place_of(t: Tree, step: PathKey) -> Place {
    match step {
        PathKey::Blocks => place_by_key(t, "res_blocks"@),
        PathKey::Index { index, key } => match t {
            Tree::Array(items) => if index < items.len() {
                Place::Item(items, index as int)
            } else {
                Place::Broken
            },
            _ => place_by_key(t, key@),
        },
        PathKey::Key { key } => if key_index(t, key@) is Some {
            place_by_key(t, key@)
        } else {
            Place::Missing
        },
    }
}

/// A tensor put in its place, from the step `i` of its path on.
pub open spec fn injected_from(
    t: Tree,
    path: Seq<PathKey>,
    i: int,
    value: Tree,
    shape: Tree,
) -> (Tree, Injection)
    decreases path.len() - i,
{
    if i >= path.len() {
        (t, Injection::Done)
    } else {
        let ends = i + 1 == path.len() && !(path[i] is Blocks);
        match place_of(t, path[i]) {
            Place::Missing => (t, Injection::PassedOver),
            Place::Broken => (t, Injection::Broken),
            Place::Item(items, k) => {
                let (part, injection) = if ends {
                    settled(items[k], value, shape)
                } else {
                    injected_from(items[k], path, i + 1, value, shape)
                };
                (Tree::Array(items.update(k, part)), injection)
            },
            Place::Entry(entries, k) => {
                let (part, injection) = if ends {
                    settled(entries[k].1, value, shape)
                } else {
                    injected_from(entries[k].1, path, i + 1, value, shape)
                };
                (Tree::Object(entries.update(k, (entries[k].0, part))), injection)
            },
        }
    }
}

/// Numbers as a value: what is no number is nothing.
pub open spec fn numbers_tree(numbers: Seq<Option<String>>) -> Tree {
    Tree::Array(
        Seq::new(
            numbers.len(),
            |i: int|
                match numbers[i] {
                    Some(text) => Tree::Number(text@),
                    None => Tree::Null,
                },
        ),
    )
}

/// A shape as a value.
pub open spec fn shape_tree(shape: Seq<usize>) -> Tree {
    Tree::Array(Seq::new(shape.len(), |i: int| Tree::Number(decimal(shape[i] as nat))))
}

/// A record with a tensor put in its place.
pub open spec fn injected(t: Tree, prepared: Prepared, numbers: Seq<Option<String>>) -> (
    Tree,
    Injection,
) {
    injected_from(
        t,
        prepared.path@,
        0,
        numbers_tree(numbers),
        shape_tree(prepared.shape@),
    )
}

fn copy_string(s: &String) -> (out: String)
    ensures
        out@ == s@,
{
    string_of(&chars_of(s.as_str()))
}

fn numbers_value(numbers: &Vec<Option<String>>) -> (value: Json)
    ensures
        tree_of(value) == numbers_tree(numbers@),
{
    let mut items: Vec<Json> = Vec::with_capacity(numbers.len());
    let mut i: usize = 0;
    while i < numbers.len()
        invariant
            i <= numbers@.len(),
            items@.len() == i,
            forall|j: int|
                0 <= j < i ==> #[trigger] tree_of(items@[j]) == (match numbers@[j] {
                    Some(text) => Tree::Number(text@),
                    None => Tree::Null,
                }),
        decreases numbers@.len() - i,
    {
        let item = match &numbers[i] {
            Some(text) => Json::Number(copy_string(text)),
            None => Json::Null,
        };
        items.push(item);
        i += 1;
    }
    proof {
        lemma_array(items);
        assert(trees_of(items@) =~= numbers_tree(numbers@)->Array_0);
    }
    Json::Array(items)
}

fn shape_value(shape: &Vec<usize>) -> (value: Json)
    ensures
        tree_of(value) == shape_tree(shape@),
{
    let mut items: Vec<Json> = Vec::with_capacity(shape.len());
    let mut i: usize = 0;
    while i < shape.len()
        invariant
            i <= shape@.len(),
            items@.len() == i,
            forall|j: int|
                0 <= j < i ==> #[trigger] tree_of(items@[j]) == Tree::Number(
                    decimal(shape@[j] as nat),
                ),
        decreases shape@.len() - i,
    {
        items.push(Json::Number(string_of(&decimal_text(shape[i]))));
        i += 1;
    }
    proof {
        lemma_array(items);
        assert(trees_of(items@) =~= shape_tree(shape@)->Array_0);
    }
    Json::Array(items)
}

/// Looks for a key.
fn find_entry(entries: &Vec<(String, Json)>, key: &str) -> (found: Option<usize>)
    ensures
        match found {
            Some(i) => find_key(entries_of(entries@), key@, entries@.len() as int) == Some(i as int)
                && i < entries@.len(),
            None => find_key(entries_of(entries@), key@, entries@.len() as int) is None,
        },
{
    let ghost source = entries_of(entries@);
    let mut i: usize = 0;
    while i < entries.len()
        invariant
            i <= entries@.len(),
            source == entries_of(entries@),
            find_key(source, key@, i as int) is None,
        decreases entries@.len() - i,
    {
        assert(source[i as int].0 == entries@[i as int].0@);
        if is_text(&chars_of(entries[i].0.as_str()), key) {
            proof {
                lemma_found_stays(source, key@, i + 1, entries@.len() as int);
            }
            return Some(i);
        }
        i += 1;
    }
    None
}

proof fn lemma_found_stays(entries: Seq<(Seq<char>, Tree)>, key: Seq<char>, n: int, m: int)
    requires
        0 <= n <= m,
        find_key(entries, key, n) is Some,
    ensures
        find_key(entries, key, m) == find_key(entries, key, n),
    decreases m,
{
    if n < m {
        lemma_found_stays(entries, key, n, m - 1);
    }
}

/// A key that is found stands there.
proof fn lemma_found_inside(entries: Seq<(Seq<char>, Tree)>, key: Seq<char>, n: int)
    requires
        0 <= n,
    ensures
        find_key(entries, key, n) matches Some(i) ==> 0 <= i < n && entries[i].0 == key,
    decreases n,
{
    if n > 0 {
        lemma_found_inside(entries, key, n - 1);
    }
}

/// Takes the entries of an object, with the key among them; any other value comes back.
fn open_entry(t: Json, key: &str) -> (opened: Result<(Vec<(String, Json)>, usize), Json>)
    ensures
        match opened {
            Ok((entries, i)) => with_key(tree_of(t), key@) == Some(
                (entries_of(entries@), i as int),
            ) && i < entries@.len(),
            Err(same) => with_key(tree_of(t), key@) is None && same == t,
        },
{
    match t {
        Json::Null => {
            let mut entries: Vec<(String, Json)> = Vec::new();
            entries.push((string_of(&chars_of(key)), Json::Null));
            assert(entries_of(entries@) =~= seq![(key@, Tree::Null)]);
            Ok((entries, 0))
        },
        Json::Object(entries) => {
            let mut entries = entries;
            proof {
                lemma_object(entries);
            }
            match find_entry(&entries, key) {
                Some(i) => Ok((entries, i)),
                None => {
                    let n = entries.len();
                    let ghost before = entries_of(entries@);
                    entries.push((string_of(&chars_of(key)), Json::Null));
                    assert(entries_of(entries@) =~= before.push((key@, Tree::Null)));
                    Ok((entries, n))
                },
            }
        },
        other => Err(other),
    }
}

/// Puts a part back in its place among the entries.
fn close_entry(entries: Vec<(String, Json)>, i: usize, part: Json) -> (t: Json)
    requires
        i < entries@.len(),
    ensures
        tree_of(t) == Tree::Object(
            entries_of(entries@).update(
                i as int,
                (entries_of(entries@)[i as int].0, tree_of(part)),
            ),
        ),
{
    let mut entries = entries;
    let ghost before = entries_of(entries@);
    let (key, _) = entries.remove(i);
    entries.insert(i, (key, part));
    proof {
        lemma_object(entries);
        assert(entries_of(entries@) =~= before.update(
            i as int,
            (before[i as int].0, tree_of(part)),
        ));
    }
    Json::Object(entries)
}

/// Puts something behind a key.
fn set_key(t: Json, key: &str, value: Json) -> (out: Result<Json, Json>)
    ensures
        match out {
            Ok(u) => with_value(tree_of(t), key@, tree_of(value)) == Some(tree_of(u)),
            Err(same) => with_value(tree_of(t), key@, tree_of(value)) is None && same == t,
        },
{
    match open_entry(t, key) {
        Ok((entries, i)) => Ok(close_entry(entries, i, value)),
        Err(same) => Err(same),
    }
}

/// Puts numbers and shape in.
fn store(t: Json, value: Json, shape: Json) -> (out: Result<Json, Json>)
    ensures
        match out {
            Ok(u) => stored(tree_of(t), tree_of(value), tree_of(shape)) == Some(tree_of(u)),
            Err(same) => stored(tree_of(t), tree_of(value), tree_of(shape)) is None && same == t,
        },
{
    match set_key(t, "value", value) {
        Ok(u) => {
            assert(tree_of(u) is Object);
            match set_key(u, "shape", shape) {
                Ok(out) => Ok(out),
                Err(same) => Err(same),
            }
        },
        Err(same) => Err(same),
    }
}


/// Comes to the end of the way.
fn settle(t: Json, value: Json, shape: Json) -> (out: (Json, Injection))
    ensures
        (tree_of(out.0), out.1) == settled(tree_of(t), tree_of(value), tree_of(shape)),
{
    match t {
        Json::Object(entries) => {
            proof {
                lemma_object(entries);
            }
            match find_entry(&entries, "item") {
                Some(i) => {
                    let mut entries = entries;
                    let ghost before = entries_of(entries@);
                    let (key, item) = entries.remove(i);
                    let (part, injection) = match store(item, value, shape) {
                        Ok(u) => (u, Injection::Done),
                        Err(same) => (same, Injection::Broken),
                    };
                    entries.insert(i, (key, part));
                    proof {
                        lemma_object(entries);
                        assert(entries_of(entries@) =~= before.update(
                            i as int,
                            (before[i as int].0, tree_of(part)),
                        ));
                        if injection == Injection::Broken {
                            assert(entries_of(entries@) =~= before);
                        }
                    }
                    (Json::Object(entries), injection)
                },
                None => match store(Json::Object(entries), value, shape) {
                    Ok(u) => (u, Injection::Done),
                    Err(same) => (same, Injection::Broken),
                },
            }
        },
        other => match store(other, value, shape) {
            Ok(u) => (u, Injection::Done),
            Err(same) => (same, Injection::Broken),
        },
    }
}

/// Goes on behind the step `i`: to the end of the way, or along the next step.
fn go_on(part: Json, path: &Vec<PathKey>, i: usize, value: Json, shape: Json) -> (out: (
    Json,
    Injection,
))
    requires
        i < path@.len(),
    ensures
        (tree_of(out.0), out.1) == (if i + 1 == path@.len() && !(path@[i as int] is Blocks) {
            settled(tree_of(part), tree_of(value), tree_of(shape))
        } else {
            injected_from(tree_of(part), path@, i + 1, tree_of(value), tree_of(shape))
        }),
    decreases path@.len() - i, 0int,
{
    assert(path.len() == path@.len());
    let ends = match &path[i] {
        PathKey::Blocks => false,
        _ => i + 1 == path.len(),
    };
    if ends {
        settle(part, value, shape)
    } else {
        inject_from(part, path, i + 1, value, shape)
    }
}

/// Follows a key.
fn inject_by_key(
    t: Json,
    key: &str,
    path: &Vec<PathKey>,
    i: usize,
    value: Json,
    shape: Json,
) -> (out: (Json, Injection))
    requires
        i < path@.len(),
        place_of(tree_of(t), path@[i as int]) == place_by_key(tree_of(t), key@),
    ensures
        (tree_of(out.0), out.1) == injected_from(
            tree_of(t),
            path@,
            i as int,
            tree_of(value),
            tree_of(shape),
        ),
    decreases path@.len() - i, 1int,
{
    match open_entry(t, key) {
        Ok((entries, k)) => {
            let mut entries = entries;
            let ghost before = entries_of(entries@);
            let (name, part) = entries.remove(k);
            let (part, injection) = go_on(part, path, i, value, shape);
            entries.insert(k, (name, part));
            proof {
                lemma_object(entries);
                assert(entries_of(entries@) =~= before.update(
                    k as int,
                    (before[k as int].0, tree_of(part)),
                ));
            }
            (Json::Object(entries), injection)
        },
        Err(same) => (same, Injection::Broken),
    }
}

/// Puts a tensor in its place, from the step `i` of its path on.
fn inject_from(t: Json, path: &Vec<PathKey>, i: usize, value: Json, shape: Json) -> (out: (
    Json,
    Injection,
))
    requires
        i <= path@.len(),
    ensures
        (tree_of(out.0), out.1) == injected_from(
            tree_of(t),
            path@,
            i as int,
            tree_of(value),
            tree_of(shape),
        ),
    decreases path@.len() - i, 2int,
{
    if i >= path.len() {
        return (t, Injection::Done);
    }
    match &path[i] {
        PathKey::Blocks => inject_by_key(t, "res_blocks", path, i, value, shape),
        PathKey::Index { index, key } => match t {
            Json::Array(items) => {
                proof {
                    lemma_array(items);
                }
                if *index >= items.len() {
                    return (Json::Array(items), Injection::Broken);
                }
                let mut items = items;
                let ghost before = trees_of(items@);
                let part = items.remove(*index);
                let (part, injection) = go_on(part, path, i, value, shape);
                items.insert(*index, part);
                proof {
                    lemma_array(items);
                    assert(trees_of(items@) =~= before.update(*index as int, tree_of(part)));
                }
                (Json::Array(items), injection)
            },
            other => inject_by_key(other, key.as_str(), path, i, value, shape),
        },
        PathKey::Key { key } => {
            let found = match &t {
                Json::Object(entries) => {
                    proof {
                        lemma_object(*entries);
                    }
                    find_entry(entries, key.as_str()).is_some()
                },
                _ => false,
            };
            if found {
                inject_by_key(t, key.as_str(), path, i, value, shape)
            } else {
                (t, Injection::PassedOver)
            }
        },
    }
}

/// Puts a tensor in its place in the record. `numbers` are its numbers as they are
/// written, or nothing for what is no number.
pub fn inject(record: Json, prepared: &Prepared, numbers: &Vec<Option<String>>) -> (out: (
    Json,
    Injection,
))
    ensures
        (tree_of(out.0), out.1) == injected(tree_of(record), *prepared, numbers@),
{
    let value = numbers_value(numbers);
    let shape = shape_value(&prepared.shape);
    inject_from(record, &prepared.path, 0, value, shape)
}

/// The record with the first `n` tensors in their places, and for each whether it was
/// put there or passed over; nothing once the record is broken.
pub open spec fn filled_upto(
    t: Tree,
    prepared: Seq<Prepared>,
    numbers: Seq<Vec<Option<String>>>,
    n: int,
) -> Option<(Tree, Seq<bool>)>
    decreases n,
{
    if n <= 0 {
        Some((t, Seq::empty()))
    } else {
        match filled_upto(t, prepared, numbers, n - 1) {
            None => None,
            Some((u, placed)) => {
                let (v, injection) = injected(u, prepared[n - 1], numbers[n - 1]@);
                if injection == Injection::Broken {
                    None
                } else {
                    Some((v, placed.push(injection == Injection::Done)))
                }
            },
        }
    }
}

/// Puts all tensors in their places, one after the other, and says for each whether it
/// was put there or passed over; or tells at which one the record broke.
pub fn fill_record(
    record: Json,
    prepared: &Vec<Prepared>,
    numbers: &Vec<Vec<Option<String>>>,
) -> (filled: Result<(Json, Vec<bool>), usize>)
    requires
        prepared@.len() == numbers@.len(),
    ensures
        match filled {
            Ok((json, placed)) => filled_upto(
                tree_of(record),
                prepared@,
                numbers@,
                prepared@.len() as int,
            ) == Some((tree_of(json), placed@)),
            Err(k) => {
                &&& k < prepared@.len()
                &&& filled_upto(tree_of(record), prepared@, numbers@, k as int) is Some
                &&& filled_upto(tree_of(record), prepared@, numbers@, k + 1) is None
            },
        },
{
    let ghost start = tree_of(record);
    let mut current = record;
    let mut placed: Vec<bool> = Vec::new();
    let mut i: usize = 0;
    while i < prepared.len()
        invariant
            i <= prepared@.len(),
            prepared@.len() == numbers@.len(),
            start == tree_of(record),
            filled_upto(start, prepared@, numbers@, i as int) == Some((tree_of(current), placed@)),
        decreases prepared@.len() - i,
    {
        let (next, injection) = inject(current, &prepared[i], &numbers[i]);
        current = next;
        match injection {
            Injection::Done => placed.push(true),
            Injection::PassedOver => placed.push(false),
            Injection::Broken => {
                return Err(i);
            },
        }
        i += 1;
    }
    Ok((current, placed))
}

/// Why a record cannot be filled.
#[derive(Copy, Clone, Debug, PartialEq, Eq, Structural)]
pub enum RecordError {
    /// Its text is no JSON.
    Unreadable,
    /// It broke at the tensor of this number.
    Broken(usize),
    /// It cannot be written again.
    Unwritable,
}

/// Fills a record given as text, and writes it again.
pub fn convert_record(
    text: &str,
    prepared: &Vec<Prepared>,
    numbers: &Vec<Vec<Option<String>>>,
) -> (converted: Result<(String, Vec<bool>), RecordError>)
    requires
        prepared@.len() == numbers@.len(),
    ensures
        match parsed_record(text@) {
            None => converted == Err::<(String, Vec<bool>), RecordError>(RecordError::Unreadable),
            Some(t) => match filled_upto(t, prepared@, numbers@, prepared@.len() as int) {
                None => converted matches Err(RecordError::Broken(k)) && k < prepared@.len()
                    && filled_upto(t, prepared@, numbers@, k as int) is Some && filled_upto(
                    t,
                    prepared@,
                    numbers@,
                    k + 1,
                ) is None,
                Some((u, placed)) => match written_record(u) {
                    None => converted == Err::<(String, Vec<bool>), RecordError>(
                        RecordError::Unwritable,
                    ),
                    Some(out) => converted matches Ok((s, p)) && s@ == out && p@ == placed,
                },
            },
        },
{
    let record = match parse_record(text) {
        None => return Err(RecordError::Unreadable),
        Some(record) => record,
    };
    let ghost t = tree_of(record);
    match fill_record(record, prepared, numbers) {
        Err(k) => {
            proof {
                lemma_broken_stays(t, prepared@, numbers@, k + 1, prepared@.len() as int);
            }
            Err(RecordError::Broken(k))
        },
        Ok((filled, placed)) => match write_record(&filled) {
            None => Err(RecordError::Unwritable),
            Some(out) => Ok((out, placed)),
        },
    }
}

/// Once broken, always broken.
proof fn lemma_broken_stays(
    t: Tree,
    prepared: Seq<Prepared>,
    numbers: Seq<Vec<Option<String>>>,
    n: int,
    m: int,
)
    requires
        n <= m,
        filled_upto(t, prepared, numbers, n) is None,
    ensures
        filled_upto(t, prepared, numbers, m) is None,
    decreases m - n,
{
    if n < m {
        lemma_broken_stays(t, prepared, numbers, n, m - 1);
    }
}

// ---------------------------------------------------------------------------
// The file
// ---------------------------------------------------------------------------
/// The error of the `safetensors` crate.
#[verifier::external_type_specification]
#[verifier::external_body]
pub struct ExSafeTensorError(SafeTensorError);

/// What a safetensors file holds: for each name the shape and the bytes of its tensor.
/// Nothing if `SafeTensors::deserialize` rejects the file.
pub uninterp spec fn file_content(bytes: Seq<u8>) -> Option<
    Map<Seq<char>, (Seq<usize>, Seq<u8>)>,
>;

/// The tensors are those of the file, each once, in any order.
pub open spec fn lists(
    tensors: Seq<RawTensor>,
    content: Map<Seq<char>, (Seq<usize>, Seq<u8>)>,
) -> bool {
    &&& forall|i: int|
        0 <= i < tensors.len() ==> content.contains_key((#[trigger] tensors[i]).name@)
            && content[tensors[i].name@] == (tensors[i].shape@, tensors[i].data@)
    &&& forall|name: Seq<char>| #[trigger]
        content.contains_key(name) ==> exists|i: int|
            0 <= i < tensors.len() && (#[trigger] tensors[i]).name@ == name
    &&& forall|i: int, j: int|
        0 <= i < j < tensors.len() ==> (#[trigger] tensors[i]).name@ != (#[trigger] tensors[j]).name@
}

/// The end of the header: its length stands in the first eight bytes, the lowest first.
pub open spec fn header_end(bytes: Seq<u8>) -> int {
    if bytes.len() < 8 {
        0
    } else {
        let length = le_bytes(bytes[0], bytes[1], bytes[2], bytes[3]) + 0x1_0000_0000 * le_bytes(
            bytes[4],
            bytes[5],
            bytes[6],
            bytes[7],
        );
        if 8 + length <= bytes.len() {
            8 + length
        } else {
            0
        }
    }
}

/// The bytes of the header, if there is one.
pub open spec fn header_bytes(bytes: Seq<u8>) -> Option<Seq<u8>> {
    if header_end(bytes) >= 8 {
        Some(bytes.subrange(8, header_end(bytes)))
    } else {
        None
    }
}

/// A number that can be an offset.
pub open spec fn offset_number(t: Tree) -> Option<int> {
    match t {
        Tree::Number(text) => number_upto(text, usize::MAX as int),
        _ => None,
    }
}

/// A pair of offsets.
pub open spec fn offset_pair(t: Tree) -> Option<(int, int)> {
    match t {
        Tree::Array(items) => if items.len() == 2 && offset_number(items[0]) is Some
            && offset_number(items[1]) is Some {
            Some((offset_number(items[0])->0, offset_number(items[1])->0))
        } else {
            None
        },
        _ => None,
    }
}

/// Where a tensor's description says that its data lies: under a key, or third in a list.
pub open spec fn tensor_offsets(t: Tree) -> Option<(int, int)> {
    match t {
        Tree::Object(_) => match value_at(t, "data_offsets"@) {
            Some(pair) => offset_pair(pair),
            None => None,
        },
        Tree::Array(items) => if items.len() == 3 {
            offset_pair(items[2])
        } else {
            None
        },
        _ => None,
    }
}

/// The end of the tensor's data, together with the length `end` of what precedes the data,
/// overflows a `usize`. Data that starts at 0 cannot be so long.
pub open spec fn ends_too_late(t: Tree, end: int) -> bool {
    match tensor_offsets(t) {
        Some((first, second)) => first >= 1 && second + end > usize::MAX,
        None => false,
    }
}

/// One of the first `n` entries of a header is a tensor that ends too late.
pub open spec fn some_ends_too_late(entries: Seq<(Seq<char>, Tree)>, end: int, n: int) -> bool {
    exists|i: int|
        0 <= i < n && (#[trigger] entries[i]).0 != "__metadata__"@ && ends_too_late(
            entries[i].1,
            end,
        )
}

/// No tensor that the header describes ends so late that the end of the data overflows.
pub open spec fn has_sound_offsets(bytes: Seq<u8>) -> bool {
    match header_bytes(bytes) {
        Some(header) => valid_utf8(header) ==> match parsed_record(decode_utf8(header)) {
            Some(Tree::Object(entries)) => !some_ends_too_late(
                entries,
                header_end(bytes),
                entries.len() as int,
            ),
            _ => true,
        },
        None => true,
    }
}

/// Calls `String::from_utf8`: bytes that are valid UTF-8 give the text that they encode,
/// and others none.
#[verifier::external_body]
fn text_of_bytes(bytes: Vec<u8>) -> (text: Option<String>)
    ensures
        match text {
            Some(s) => valid_utf8(bytes@) && s@ == decode_utf8(bytes@),
            None => !valid_utf8(bytes@),
        },
{
    String::from_utf8(bytes).ok()
}

fn read_offset(json: &Json) -> (offset: Option<usize>)
    ensures
        match offset {
            Some(n) => offset_number(tree_of(*json)) == Some(n as int),
            None => offset_number(tree_of(*json)) is None,
        },
{
    match json {
        Json::Number(text) => parse_usize(&chars_of(text.as_str())),
        _ => None,
    }
}

fn read_pair(json: &Json) -> (pair: Option<(usize, usize)>)
    ensures
        match pair {
            Some((a, b)) => offset_pair(tree_of(*json)) == Some((a as int, b as int)),
            None => offset_pair(tree_of(*json)) is None,
        },
{
    match json {
        Json::Array(items) => {
            proof {
                lemma_array(*items);
            }
            if items.len() != 2 {
                return None;
            }
            assert(trees_of(items@)[0] == tree_of(items@[0]));
            assert(trees_of(items@)[1] == tree_of(items@[1]));
            match (read_offset(&items[0]), read_offset(&items[1])) {
                (Some(a), Some(b)) => Some((a, b)),
                _ => None,
            }
        },
        _ => None,
    }
}

fn read_tensor_offsets(json: &Json) -> (pair: Option<(usize, usize)>)
    ensures
        match pair {
            Some((a, b)) => tensor_offsets(tree_of(*json)) == Some((a as int, b as int)),
            None => tensor_offsets(tree_of(*json)) is None,
        },
{
    match json {
        Json::Object(entries) => {
            proof {
                lemma_object(*entries);
            }
            match find_entry(entries, "data_offsets") {
                Some(i) => {
                    assert(entries_of(entries@)[i as int].1 == tree_of(entries@[i as int].1));
                    read_pair(&entries[i].1)
                },
                None => None,
            }
        },
        Json::Array(items) => {
            proof {
                lemma_array(*items);
            }
            if items.len() != 3 {
                return None;
            }
            assert(trees_of(items@)[2] == tree_of(items@[2]));
            read_pair(&items[2])
        },
        _ => None,
    }
}

/// Looks for a tensor that ends too late.
fn find_late_tensor(entries: &Vec<(String, Json)>, end: usize) -> (found: bool)
    ensures
        found == some_ends_too_late(entries_of(entries@), end as int, entries@.len() as int),
{
    let ghost source = entries_of(entries@);
    let mut i: usize = 0;
    while i < entries.len()
        invariant
            i <= entries@.len(),
            source == entries_of(entries@),
            !some_ends_too_late(source, end as int, i as int),
        decreases entries@.len() - i,
    {
        assert(source[i as int] == (entries@[i as int].0@, tree_of(entries@[i as int].1)));
        if !is_text(&chars_of(entries[i].0.as_str()), "__metadata__") {
            if let Some((first, second)) = read_tensor_offsets(&entries[i].1) {
                if first >= 1 && second > usize::MAX - end {
                    return true;
                }
            }
        }
        i += 1;
    }
    false
}

/// The header's bytes.
fn read_header(bytes: &Vec<u8>) -> (header: Option<Vec<u8>>)
    ensures
        match header {
            Some(h) => header_bytes(bytes@) == Some(h@) && header_end(bytes@) == 8 + h@.len(),
            None => header_bytes(bytes@) is None,
        },
{
    if bytes.len() < 8 {
        return None;
    }
    let low: u64 = bytes[0] as u64 + 0x100 * bytes[1] as u64 + 0x10000 * bytes[2] as u64
        + 0x1000000 * bytes[3] as u64;
    let high: u64 = bytes[4] as u64 + 0x100 * bytes[5] as u64 + 0x10000 * bytes[6] as u64
        + 0x1000000 * bytes[7] as u64;
    let length: u64 = low + 0x1_0000_0000 * high;
    if length > (bytes.len() - 8) as u64 {
        return None;
    }
    let end: usize = 8 + length as usize;
    let mut header: Vec<u8> = Vec::with_capacity(length as usize);
    let mut i: usize = 8;
    assert(bytes@.subrange(8, 8) =~= Seq::<u8>::empty());
    while i < end
        invariant
            8 <= i <= end <= bytes@.len(),
            end == header_end(bytes@),
            header@ == bytes@.subrange(8, i as int),
        decreases end - i,
    {
        header.push(bytes[i]);
        i += 1;
        assert(header@ =~= bytes@.subrange(8, i as int));
    }
    Some(header)
}

/// Tests the offsets in the header.
pub fn check_offsets(bytes: &Vec<u8>) -> (sound: bool)
    ensures
        sound == has_sound_offsets(bytes@),
{
    let header = match read_header(bytes) {
        None => return true,
        Some(header) => header,
    };
    assert(bytes.len() == bytes@.len());
    let end = 8 + header.len();
    let text = match text_of_bytes(header) {
        None => return true,
        Some(text) => text,
    };
    match parse_record(text.as_str()) {
        Some(Json::Object(entries)) => {
            proof {
                lemma_object(entries);
            }
            !find_late_tensor(&entries, end)
        },
        _ => true,
    }
}

/// Calls `SafeTensors::deserialize` and, if it accepts the file, `SafeTensors::tensors`:
/// the names, shapes and bytes of all tensors, each once. Their order is open, since
/// they are kept in a hash map. The crate adds the end of the last tensor to the length
/// of what precedes the data, so headers with a tensor for which that overflows are left
/// out.
#[verifier::external_body]
fn deserialize(bytes: &Vec<u8>) -> (tensors: Result<Vec<RawTensor>, SafeTensorError>)
    requires
        has_sound_offsets(bytes@),
    ensures
        match tensors {
            Ok(v) => file_content(bytes@) is Some && lists(v@, file_content(bytes@)->0),
            Err(_) => file_content(bytes@) is None,
        },
{
    let file = SafeTensors::deserialize(bytes)?;
    Ok(
        file.tensors().into_iter().map(
            |(name, view)|
                RawTensor { name, shape: view.shape().to_vec(), data: view.data().to_vec() },
        ).collect(),
    )
}

/// Why a file cannot be converted.
#[derive(Copy, Clone, Debug, PartialEq, Eq, Structural)]
pub enum ConvertError {
    /// Its header tells of data past the end of what can be addressed.
    Overflow,
    /// It is no safetensors file.
    Unreadable,
}

/// Reads the tensors of a safetensors file.
pub fn load_tensors(bytes: &Vec<u8>) -> (tensors: Result<Vec<RawTensor>, ConvertError>)
    ensures
        match tensors {
            Ok(v) => {
                &&& has_sound_offsets(bytes@)
                &&& file_content(bytes@) is Some
                &&& lists(v@, file_content(bytes@)->0)
            },
            Err(ConvertError::Overflow) => !has_sound_offsets(bytes@),
            Err(ConvertError::Unreadable) => {
                &&& has_sound_offsets(bytes@)
                &&& file_content(bytes@) is None
            },
        },
{
    if !check_offsets(bytes) {
        return Err(ConvertError::Overflow);
    }
    match deserialize(bytes) {
        Ok(tensors) => Ok(tensors),
        Err(_) => Err(ConvertError::Unreadable),
    }
}

/// What stands where a path leads in a record, if it leads anywhere: by keys into objects and by
/// indices into lists.
pub open spec fn followed(t: Tree, path: Seq<PathKey>, i: int) -> Option<Tree>
    decreases path.len() - i,
{
    if i >= path.len() {
        Some(t)
    } else {
        let next = match path[i] {
            PathKey::Blocks => value_at(t, "res_blocks"@),
            PathKey::Index { index, key } => match t {
                Tree::Array(items) => if index < items.len() {
                    Some(items[index as int])
                } else {
                    None
                },
                _ => value_at(t, key@),
            },
            PathKey::Key { key } => value_at(t, key@),
        };
        match next {
            Some(part) => followed(part, path, i + 1),
            None => None,
        }
    }
}

/// The value holds the numbers and the shape, in its `item` if it has one.
pub open spec fn holds_tensor(t: Tree, value: Tree, shape: Tree) -> bool {
    let holder = match value_at(t, "item"@) {
        Some(item) => item,
        None => t,
    };
    value_at(holder, "value"@) == Some(value) && value_at(holder, "shape"@) == Some(shape)
}

proof fn lemma_settled_holds(t: Tree, value: Tree, shape: Tree)
    requires
        settled(t, value, shape).1 == Injection::Done,
    ensures
        holds_tensor(settled(t, value, shape).0, value, shape),
{
    reveal_strlit("item");
    reveal_strlit("value");
    reveal_strlit("shape");
    assert("item"@[0] == 'i' && "value"@[0] == 'v' && "shape"@[0] == 's');
    match key_index(t, "item"@) {
        Some(i) => {
            let entries = t->Object_0;
            let item = stored(entries[i].1, value, shape)->0;
            assert(with_value(t, "item"@, item) == Some(settled(t, value, shape).0));
            lemma_with_value(t, "item"@, item, "value"@);
            law_what_is_stored_is_found(entries[i].1, value, shape, "item"@);
        },
        None => {
            law_what_is_stored_is_found(t, value, shape, "item"@);
        },
    }
}

/// A tensor that was put in its place is found there by its path, with its numbers and its
/// shape.
pub proof fn law_an_injected_tensor_is_found(
    t: Tree,
    path: Seq<PathKey>,
    i: int,
    value: Tree,
    shape: Tree,
)
    requires
        0 <= i < path.len(),
        !(path.last() is Blocks),
        injected_from(t, path, i, value, shape).1 == Injection::Done,
    ensures
        followed(injected_from(t, path, i, value, shape).0, path, i) matches Some(place)
            && holds_tensor(place, value, shape),
    decreases path.len() - i,
{
    reveal_with_fuel(followed, 2);
    let u = injected_from(t, path, i, value, shape).0;
    let ends = i + 1 == path.len();
    match place_of(t, path[i]) {
        Place::Item(items, k) => {
            if ends {
                lemma_settled_holds(items[k], value, shape);
            } else {
                law_an_injected_tensor_is_found(items[k], path, i + 1, value, shape);
            }
        },
        Place::Entry(entries, k) => {
            let key = match path[i] {
                PathKey::Blocks => "res_blocks"@,
                PathKey::Index { index, key } => key@,
                PathKey::Key { key } => key@,
            };
            let part = if ends {
                settled(entries[k].1, value, shape).0
            } else {
                injected_from(entries[k].1, path, i + 1, value, shape).0
            };
            assert(with_key(t, key) == Some((entries, k)));
            assert(with_value(t, key, part) == Some(u));
            assert(key.push('x').len() != key.len());
            lemma_with_value(t, key, part, key.push('x'));
            if ends {
                lemma_settled_holds(entries[k].1, value, shape);
            } else {
                law_an_injected_tensor_is_found(entries[k].1, path, i + 1, value, shape);
            }
        },
        _ => {},
    }
}

/// What preparing a tensor does: the weights of the linear layers have rows and columns
/// exchanged, everything else stays as it is, and the parts of the name are the way to its
/// place, but that the weight and the bias of a normalisation are called gamma and beta.
pub proof fn law_what_preparing_does(tensor: RawTensor, prepared: Prepared, r: int, c: int, i: int)
    requires
        is_prepared(tensor, prepared),
    ensures
        ({
            let name = tensor.name@;
            let numbers = number_bits(tensor.data@);
            let linear = (holds(name, "policy_head"@) || holds(name, "fc1"@) || holds(
                name,
                "value_head"@,
            )) && holds(name, "weight"@);
            let parts = fields(name, '.');
            let normalised = 0 < i < parts.len() && holds(parts[i - 1], "bn"@);
            let key = target_key(parts, i);
            &&& prepared.name@ == name
            &&& !linear ==> prepared.shape@ == tensor.shape@ && prepared.data@ == numbers
            &&& linear ==> {
                let rows = tensor.shape@[0] as int;
                let cols = tensor.shape@[1] as int;
                &&& prepared.shape@ == seq![tensor.shape@[1], tensor.shape@[0]]
                &&& prepared.data@.len() == rows * cols
                &&& 0 <= r < rows && 0 <= c < cols ==> prepared.data@[c * rows + r] == numbers[r
                    * cols + c]
            }
            &&& prepared.path@.len() == parts.len()
            &&& normalised && parts[i] == "weight"@ ==> key == "gamma"@
            &&& normalised && parts[i] == "bias"@ ==> key == "beta"@
            &&& 0 <= i < parts.len() && !(normalised && (parts[i] == "weight"@ || parts[i]
                == "bias"@)) ==> key == parts[i]
            &&& 0 <= i < parts.len() ==> match prepared.path@[i] {
                PathKey::Blocks => key == "res_blocks"@,
                PathKey::Index { index, key: text } => text@ == key && number_upto(
                    key,
                    usize::MAX as int,
                ) == Some(index as int),
                PathKey::Key { key: text } => text@ == key && number_upto(
                    key,
                    usize::MAX as int,
                ) is None,
            }
        }),
{
    reveal_strlit("weight");
    reveal_strlit("bias");
    assert("weight"@[0] == 'w' && "bias"@[0] == 'b');
    if 0 <= i < prepared.path@.len() {
        assert(is_step_for(prepared.path@[i], target_key(fields(tensor.name@, '.'), i)));
    }
}

/// Four bytes are a number, the lowest first; what is left over is dropped.
pub proof fn law_numbers_are_four_bytes_each(bytes: Seq<u8>, i: int)
    requires
        0 <= i < bytes.len() / 4,
    ensures
        number_bits(bytes).len() == bytes.len() / 4,
        number_bits(bytes)[i] as int == bytes[4 * i] + 256 * bytes[4 * i + 1] + 65536 * bytes[4 * i
            + 2] + 16777216 * bytes[4 * i + 3],
{
}

/// Which tensors are converted: all whose names hold neither `num_batches_tracked` nor
/// `running_`; and which of them cannot be: the weights of a linear layer with fewer than two
/// dimensions, or with fewer numbers than rows times columns.
pub proof fn law_which_tensors_are_converted(tensors: Seq<RawTensor>, i: int)
    requires
        0 <= i < tensors.len(),
    ensures
        ({
            let name = tensors[i].name@;
            let shape = tensors[i].shape@;
            let statistic = holds(name, "num_batches_tracked"@) || holds(name, "running_"@);
            let linear = (holds(name, "policy_head"@) || holds(name, "fc1"@) || holds(
                name,
                "value_head"@,
            )) && holds(name, "weight"@);
            &&& carried(tensors).contains(tensors[i]) <==> !statistic
            &&& is_malformed(tensors[i]) <==> !statistic && linear && (shape.len() < 2 || shape[0]
                * shape[1] > tensors[i].data@.len() / 4)
        }),
{
    let keeps = |t: RawTensor| !is_statistic(t.name@);
    if keeps(tensors[i]) {
        tensors.lemma_filter_contains(keeps, i);
    }
    if carried(tensors).contains(tensors[i]) {
        let k = choose|k: int| 0 <= k < carried(tensors).len() && carried(tensors)[k] == tensors[i];
        tensors.lemma_filter_pred(keeps, k);
    }
}

/// A tensor whose way through the record ends before a key that is not there is passed over,
/// and the record stays as it is.
pub proof fn law_a_tensor_without_a_place_changes_nothing(
    t: Tree,
    path: Seq<PathKey>,
    i: int,
    n: int,
    value: Tree,
    shape: Tree,
)
    requires
        0 <= i <= n < path.len(),
        followed(t, path.take(n), i) is Some,
        path[n] matches PathKey::Key { key } && value_at(followed(t, path.take(n), i)->0, key@) is None,
    ensures
        injected_from(t, path, i, value, shape) == (t, Injection::PassedOver),
    decreases n - i,
{
    if i < n {
        assert(path.take(n)[i] == path[i]);
        match place_of(t, path[i]) {
            Place::Item(items, k) => {
                law_a_tensor_without_a_place_changes_nothing(
                    items[k],
                    path,
                    i + 1,
                    n,
                    value,
                    shape,
                );
                assert(items.update(k, items[k]) =~= items);
            },
            Place::Entry(entries, k) => {
                let key = match path[i] {
                    PathKey::Blocks => "res_blocks"@,
                    PathKey::Index { index, key } => key@,
                    PathKey::Key { key } => key@,
                };
                assert(key_index(t, key) == Some(k));
                lemma_found_inside(entries, key, entries.len() as int);
                law_a_tensor_without_a_place_changes_nothing(
                    entries[k].1,
                    path,
                    i + 1,
                    n,
                    value,
                    shape,
                );
                assert(entries.update(k, (entries[k].0, entries[k].1)) =~= entries);
            },
            _ => {},
        }
    }
}

/// A filled record says of each tensor whether it was placed, in their order; and the last one,
/// if it was, stands where its path leads.
pub proof fn law_a_filled_record_tells_what_it_took(
    t: Tree,
    prepared: Seq<Prepared>,
    numbers: Seq<Vec<Option<String>>>,
    n: int,
)
    requires
        0 <= n <= prepared.len(),
        filled_upto(t, prepared, numbers, n) is Some,
    ensures
        ({
            let (u, placed) = filled_upto(t, prepared, numbers, n)->0;
            &&& placed.len() == n
            &&& n == 0 ==> u == t
            &&& n > 0 ==> (filled_upto(t, prepared, numbers, n - 1) matches Some((_, earlier))
                && placed.drop_last() == earlier)
            &&& n > 0 && placed[n - 1] && prepared[n - 1].path@.len() > 0 && !(
            prepared[n - 1].path@.last() is Blocks) ==> (followed(u, prepared[n - 1].path@, 0)
                matches Some(place) && holds_tensor(
                place,
                numbers_tree(numbers[n - 1]@),
                shape_tree(prepared[n - 1].shape@),
            ))
        }),
    decreases n,
{
    if n > 0 {
        law_a_filled_record_tells_what_it_took(t, prepared, numbers, n - 1);
        let (u, placed) = filled_upto(t, prepared, numbers, n - 1)->0;
        let (w, all) = filled_upto(t, prepared, numbers, n)->0;
        let path = prepared[n - 1].path@;
        assert(all.drop_last() =~= placed);
        if all[n - 1] && path.len() > 0 && !(path.last() is Blocks) {
            law_an_injected_tensor_is_found(
                u,
                path,
                0,
                numbers_tree(numbers[n - 1]@),
                shape_tree(prepared[n - 1].shape@),
            );
        }
    }
}

/// Where the header of a file stands: after eight bytes that give its length, the least first,
/// if the file is as long as that.
pub proof fn law_where_a_header_stands(bytes: Seq<u8>)
    ensures
        bytes.len() < 8 ==> header_bytes(bytes) is None,
        bytes.len() >= 8 ==> {
            let length = bytes[0] + 256 * bytes[1] + 65536 * bytes[2] + 16777216 * bytes[3]
                + 4294967296 * bytes[4] + 1099511627776 * bytes[5] + 281474976710656 * bytes[6]
                + 72057594037927936 * bytes[7];
            &&& 8 + length <= bytes.len() ==> header_bytes(bytes) == Some(
                bytes.subrange(8, 8 + length),
            )
            &&& 8 + length > bytes.len() ==> header_bytes(bytes) is None
        },
{
}

} // verus!
