use vstd::prelude::*;
use vstd::string::StringSliceAdditionalSpecFns;
use vstd::utf8::*;
use crate::vocab::{first_index_of, lemma_first_index_of, parse_i64, parse_i64_spec};

verus! {

/// Size of one attention head.
pub const HEAD_SIZE: i64 = 64;

/// The tokens fed to the model: one token, or a sequence of them.
pub enum IdxInput {
    Single(i64),
    Sequence(Vec<i64>),
}

/// Which forward pass the model runs for an input: the one-token pass for
/// the given token, or the sequence pass over the whole input.
#[derive(PartialEq, Eq, Structural, Debug, Clone, Copy)]
pub enum ForwardPath {
    One(i64),
    Sequence,
}

impl IdxInput {
    /// The forward pass for this input: a single token, or a sequence of one
    /// token, goes through the one-token pass; a longer sequence through the
    /// sequence pass. An empty sequence has no pass.
    pub fn forward_path(&self) -> (res: ForwardPath)
        requires
            !(self matches IdxInput::Sequence(v) && v@.len() == 0),
        ensures
            match self {
                IdxInput::Single(i) => res == ForwardPath::One(*i),
                IdxInput::Sequence(v) => if v@.len() > 1 {
                    res == ForwardPath::Sequence
                } else {
                    res == ForwardPath::One(v@[0])
                },
            },
    {
        match self {
            IdxInput::Single(i) => ForwardPath::One(*i),
            IdxInput::Sequence(v) => {
                if v.len() > 1 {
                    ForwardPath::Sequence
                } else {
                    ForwardPath::One(v[0])
                }
            },
        }
    }
}

/// The arguments a model is built from.
pub struct RWKVArgs {
    pub vocab_size: i64,
    pub head_size: i64,
    pub model_name: String,
}

/// The sizes of a model, derived from its weights.
pub struct ModelDims {
    pub n_layer: usize,
    pub n_embd: i64,
    pub n_head: i64,
    pub head_size: i64,
}

/// `pat` occurs somewhere in `s`.
pub open spec fn has_substring(s: Seq<u8>, pat: Seq<u8>) -> bool {
    exists|i: int| 0 <= i && i + pat.len() <= s.len() && #[trigger] s.subrange(i, i + pat.len()) == pat
}

/// `s` begins with `pat`.
pub open spec fn has_prefix(s: Seq<u8>, pat: Seq<u8>) -> bool {
    pat.len() <= s.len() && s.subrange(0, pat.len() as int) == pat
}

/// `s` ends with `pat`.
pub open spec fn has_suffix(s: Seq<u8>, pat: Seq<u8>) -> bool {
    pat.len() <= s.len() && s.subrange(s.len() - pat.len(), s.len() as int) == pat
}

/// Whether `pat` occurs in `s`.
fn contains_bytes(s: &[u8], pat: &[u8]) -> (res: bool)
    ensures
        res == has_substring(s@, pat@),
{
    if pat.len() > s.len() {
        return false;
    }
    let last = s.len() - pat.len();
    let mut i: usize = 0;
    while i <= last
        invariant
            last == s@.len() - pat@.len(),
            forall|j: int| 0 <= j < i ==> #[trigger] s@.subrange(j, j + pat@.len()) != pat@,
        decreases last + 1 - i,
    {
        if starts_at(s, pat, i) {
            return true;
        }
        if i == last {
            return false;
        }
        i = i + 1;
    }
    false
}

/// Whether `pat` occurs in `s` at position `at`.
fn starts_at(s: &[u8], pat: &[u8], at: usize) -> (res: bool)
    requires
        at + pat@.len() <= s@.len(),
    ensures
        res == (s@.subrange(at as int, at + pat@.len()) == pat@),
{
    let n = s.len();
    let mut k: usize = 0;
    while k < pat.len()
        invariant
            n == s@.len(),
            at + pat@.len() <= s@.len(),
            k <= pat@.len(),
            forall|j: int| 0 <= j < k ==> s@[at + j] == pat@[j],
        decreases pat@.len() - k,
    {
        if s[at + k] != pat[k] {
            assert(s@.subrange(at as int, at + pat@.len())[k as int] != pat@[k as int]);
            return false;
        }
        k = k + 1;
    }
    assert(s@.subrange(at as int, at + pat@.len()) =~= pat@);
    true
}

/// Whether the weight named by the bytes `key` is stored with its two axes
/// swapped: the names of the key, value, receptance, output and head weights.
pub open spec fn needs_transpose_spec(key: Seq<u8>) -> bool {
    ||| has_substring(key, "key.weight".spec_bytes())
    ||| has_substring(key, "value.weight".spec_bytes())
    ||| has_substring(key, "receptance.weight".spec_bytes())
    ||| has_substring(key, "output.weight".spec_bytes())
    ||| has_substring(key, "head.weight".spec_bytes())
}

/// `pat` occurs in `a + pat + c`.
proof fn lemma_occurs_between(a: Seq<u8>, pat: Seq<u8>, c: Seq<u8>)
    ensures
        has_substring(a + pat + c, pat),
{
    let s = a + pat + c;
    assert(s.subrange(a.len() as int, (a.len() + pat.len()) as int) =~= pat);
}

/// Where `pat` occurs in `s`, `s` is `pat` with something before and after.
proof fn lemma_occurrence_split(s: Seq<u8>, pat: Seq<u8>) -> (ac: (Seq<u8>, Seq<u8>))
    requires
        has_substring(s, pat),
    ensures
        s == ac.0 + pat + ac.1,
{
    let i = choose|i: int| 0 <= i && i + pat.len() <= s.len() && #[trigger] s.subrange(i, i + pat.len()) == pat;
    let a = s.subrange(0, i);
    let c = s.subrange(i + pat.len(), s.len() as int);
    assert(s =~= a + s.subrange(i, i + pat.len()) + c);
    (a, c)
}

/// Law: every weight name in which `key.weight`, `value.weight`,
/// `receptance.weight`, `output.weight` or `head.weight` occurs, whatever
/// stands before and after it, is transposed on loading.
pub proof fn lemma_transposed_names(a: Seq<u8>, c: Seq<u8>)
    ensures
        needs_transpose_spec(a + "key.weight".spec_bytes() + c),
        needs_transpose_spec(a + "value.weight".spec_bytes() + c),
        needs_transpose_spec(a + "receptance.weight".spec_bytes() + c),
        needs_transpose_spec(a + "output.weight".spec_bytes() + c),
        needs_transpose_spec(a + "head.weight".spec_bytes() + c),
{
    lemma_occurs_between(a, "key.weight".spec_bytes(), c);
    lemma_occurs_between(a, "value.weight".spec_bytes(), c);
    lemma_occurs_between(a, "receptance.weight".spec_bytes(), c);
    lemma_occurs_between(a, "output.weight".spec_bytes(), c);
    lemma_occurs_between(a, "head.weight".spec_bytes(), c);
}

/// Law: a transposed weight name is one of those names: it is
/// `key.weight`, `value.weight`, `receptance.weight`, `output.weight` or
/// `head.weight` with something before and after; the returned pair gives
/// what stands before and after.
pub proof fn lemma_transposed_names_only(key: Seq<u8>) -> (ac: (Seq<u8>, Seq<u8>))
    requires
        needs_transpose_spec(key),
    ensures
        key == ac.0 + "key.weight".spec_bytes() + ac.1 || key == ac.0 + "value.weight".spec_bytes() + ac.1
            || key == ac.0 + "receptance.weight".spec_bytes() + ac.1 || key == ac.0
            + "output.weight".spec_bytes() + ac.1 || key == ac.0 + "head.weight".spec_bytes() + ac.1,
{
    if has_substring(key, "key.weight".spec_bytes()) {
        lemma_occurrence_split(key, "key.weight".spec_bytes())
    } else if has_substring(key, "value.weight".spec_bytes()) {
        lemma_occurrence_split(key, "value.weight".spec_bytes())
    } else if has_substring(key, "receptance.weight".spec_bytes()) {
        lemma_occurrence_split(key, "receptance.weight".spec_bytes())
    } else if has_substring(key, "output.weight".spec_bytes()) {
        lemma_occurrence_split(key, "output.weight".spec_bytes())
    } else {
        lemma_occurrence_split(key, "head.weight".spec_bytes())
    }
}

/// Whether the weight named `key` is transposed on loading; see
/// `needs_transpose_spec`.
pub fn needs_transpose(key: &str) -> (res: bool)
    ensures
        res == needs_transpose_spec(key.spec_bytes()),
        forall|a: Seq<u8>, c: Seq<u8>|
            key.spec_bytes() == a + "key.weight".spec_bytes() + c || key.spec_bytes() == a
                + "value.weight".spec_bytes() + c || key.spec_bytes() == a + "receptance.weight".spec_bytes()
                + c || key.spec_bytes() == a + "output.weight".spec_bytes() + c || key.spec_bytes() == a
                + "head.weight".spec_bytes() + c ==> res,
{
    proof {
        assert forall|a: Seq<u8>, c: Seq<u8>|
            key.spec_bytes() == a + "key.weight".spec_bytes() + c || key.spec_bytes() == a
                + "value.weight".spec_bytes() + c || key.spec_bytes() == a + "receptance.weight".spec_bytes()
                + c || key.spec_bytes() == a + "output.weight".spec_bytes() + c || key.spec_bytes() == a
                + "head.weight".spec_bytes() + c implies needs_transpose_spec(key.spec_bytes()) by {
            lemma_transposed_names(a, c);
        }
    }
    let k = key.as_bytes();
    contains_bytes(k, "key.weight".as_bytes()) || contains_bytes(k, "value.weight".as_bytes())
        || contains_bytes(k, "receptance.weight".as_bytes()) || contains_bytes(
        k,
        "output.weight".as_bytes(),
    ) || contains_bytes(k, "head.weight".as_bytes())
}

/// Whether the weight named `key` is an attention `r_k`, which is flattened
/// on loading: its name ends with `att.r_k`.
pub fn is_flattened(key: &str) -> (res: bool)
    ensures
        res == has_suffix(key.spec_bytes(), "att.r_k".spec_bytes()),
        res <==> exists|a: Seq<u8>| key.spec_bytes() == a + "att.r_k".spec_bytes(),
{
    let ghost kb = key.spec_bytes();
    let ghost p = "att.r_k".spec_bytes();
    proof {
        if has_suffix(kb, p) {
            let a = kb.subrange(0, kb.len() - p.len());
            assert(kb =~= a + kb.subrange(kb.len() - p.len(), kb.len() as int));
            assert(kb == a + p);
        }
        assert forall|a: Seq<u8>| kb == a + p implies has_suffix(kb, p) by {
            assert((a + p).subrange((a + p).len() - p.len(), (a + p).len() as int) =~= p);
        }
    }
    let k = key.as_bytes();
    let pat = "att.r_k".as_bytes();
    if pat.len() > k.len() {
        return false;
    }
    starts_at(k, pat, k.len() - pat.len())
}

/// The layer that the weight named by the bytes `key` belongs to: for a name
/// beginning with `blocks.`, the number between its first and its second dot
/// (or its end), where that reads as an `isize`.
pub open spec fn layer_index_spec(key: Seq<u8>) -> Option<isize> {
    if has_prefix(key, "blocks.".spec_bytes()) && first_index_of(key, 46u8) is Some {
        let rest = key.subrange(first_index_of(key, 46u8).unwrap() + 1, key.len() as int);
        let part = match first_index_of(rest, 46u8) {
            Some(j) => rest.subrange(0, j),
            None => rest,
        };
        match parse_i64_spec(part) {
            Some(v) => if isize::MIN <= v <= isize::MAX {
                Some(v as isize)
            } else {
                None
            },
            None => None,
        }
    } else {
        None
    }
}

/// The bytes of `blocks.`.
proof fn lemma_blocks_bytes()
    ensures
        "blocks.".spec_bytes() == seq![98u8, 108u8, 111u8, 99u8, 107u8, 115u8, 46u8],
{
    reveal_strlit("blocks.");
    let chars = "blocks."@;
    assert(is_ascii_chars(chars));
    is_ascii_chars_encode_utf8(chars);
    assert("blocks.".spec_bytes() =~= seq![98u8, 108u8, 111u8, 99u8, 107u8, 115u8, 46u8]);
}

/// The `isize` that an `i64` reads as, where it fits.
pub open spec fn fits_isize(v: Option<i64>) -> Option<isize> {
    match v {
        Some(x) => if isize::MIN <= x <= isize::MAX {
            Some(x as isize)
        } else {
            None
        },
        None => None,
    }
}

/// Law: the layer of the weight named `blocks.<seg>.<rest>` or
/// `blocks.<seg>`, where `seg` holds no dot, is the number `seg` reads as,
/// whatever `rest` holds; a name that does not begin with `blocks.` has no
/// layer.
pub proof fn lemma_layer_of_block_name(seg: Seq<u8>, rest: Seq<u8>, other: Seq<u8>)
    requires
        forall|j: int| 0 <= j < seg.len() ==> seg[j] != 46u8,
    ensures
        layer_index_spec("blocks.".spec_bytes() + seg + seq![46u8] + rest) == fits_isize(parse_i64_spec(seg)),
        layer_index_spec("blocks.".spec_bytes() + seg) == fits_isize(parse_i64_spec(seg)),
        !has_prefix(other, "blocks.".spec_bytes()) ==> layer_index_spec(other) is None,
{
    lemma_blocks_bytes();
    let p = "blocks.".spec_bytes();
    let k1 = p + seg + seq![46u8] + rest;
    let k2 = p + seg;
    assert(k1.subrange(0, 7) =~= p);
    assert(k2.subrange(0, 7) =~= p);
    lemma_first_index_of(k1, 46u8);
    lemma_first_index_of(k2, 46u8);
    assert(k1[6] == 46u8);
    assert(k2[6] == 46u8);
    assert(first_index_of(k1, 46u8) == Some(6int));
    assert(first_index_of(k2, 46u8) == Some(6int));
    let r1 = k1.subrange(7, k1.len() as int);
    let r2 = k2.subrange(7, k2.len() as int);
    assert(r1 =~= seg + seq![46u8] + rest);
    assert(r2 =~= seg);
    lemma_first_index_of(r1, 46u8);
    lemma_first_index_of(r2, 46u8);
    assert(r1[seg.len() as int] == 46u8);
    assert(first_index_of(r1, 46u8) == Some(seg.len() as int));
    assert(first_index_of(r2, 46u8) is None);
    assert(r1.subrange(0, seg.len() as int) =~= seg);
}

/// The index of the first `c` in `s` at or after `from`, or `s.len()`.
fn find_from(s: &[u8], c: u8, from: usize) -> (res: usize)
    requires
        from <= s@.len(),
    ensures
        from <= res <= s@.len(),
        res < s@.len() ==> s@[res as int] == c,
        forall|j: int| from <= j < res ==> s@[j] != c,
{
    let mut i = from;
    while i < s.len() && s[i] != c
        invariant
            from <= i <= s@.len(),
            forall|j: int| from <= j < i ==> s@[j] != c,
        decreases s@.len() - i,
    {
        i = i + 1;
    }
    i
}

/// The layer of the weight named `key`; see `layer_index_spec`.
pub fn layer_index(key: &str) -> (res: Option<isize>)
    ensures
        res == layer_index_spec(key.spec_bytes()),
{
    let k = key.as_bytes();
    let pat = "blocks.".as_bytes();
    if pat.len() > k.len() || !starts_at(k, pat, 0) {
        return None;
    }
    let first = find_from(k, 46u8, 0);
    proof {
        lemma_first_index_of(k@, 46u8);
    }
    if first == k.len() {
        proof {
            assert(first_index_of(k@, 46u8) is None);
        }
        return None;
    }
    proof {
        assert(first_index_of(k@, 46u8) == Some(first as int));
    }
    let second = find_from(k, 46u8, first + 1);
    let ghost rest = k@.subrange(first + 1, k@.len() as int);
    proof {
        lemma_first_index_of(rest, 46u8);
        if second < k.len() {
            assert(rest[second - first - 1] == 46u8);
            assert(first_index_of(rest, 46u8) == Some(second - first - 1));
            assert(rest.subrange(0, second - first - 1) =~= k@.subrange(first + 1, second as int));
        } else {
            assert(forall|j: int| 0 <= j < rest.len() ==> rest[j] == k@[first + 1 + j]);
            assert(first_index_of(rest, 46u8) is None);
            assert(rest =~= k@.subrange(first + 1, second as int));
        }
    }
    match parse_i64(vstd::slice::slice_subrange(k, first + 1, second)) {
        Some(v) => {
            if v >= isize::MIN as i64 && v <= isize::MAX as i64 {
                Some(v as isize)
            } else {
                None
            }
        },
        None => None,
    }
}

/// The greatest layer index among the weight names, starting from -1.
pub open spec fn max_layer(keys: Seq<String>) -> int
    decreases keys.len(),
{
    if keys.len() == 0 {
        -1
    } else {
        let m = max_layer(keys.drop_last());
        match layer_index_spec(encode_utf8(keys.last()@)) {
            Some(l) => if l > m {
                l as int
            } else {
                m
            },
            None => m,
        }
    }
}

/// The greatest layer index is at least -1.
proof fn lemma_max_layer_bounds(keys: Seq<String>)
    ensures
        -1 <= max_layer(keys),
        max_layer(keys) <= isize::MAX,
    decreases keys.len(),
{
    if keys.len() > 0 {
        lemma_max_layer_bounds(keys.drop_last());
    }
}

/// Law: the layer count `max_layer(keys) + 1` of the weight names `keys` is
/// at least 0 and greater than the layer index of every name; where it is
/// not 0, some name has the layer index just below it.
pub proof fn lemma_layer_count_is_max(keys: Seq<String>)
    ensures
        max_layer(keys) + 1 >= 0,
        forall|i: int|
            0 <= i < keys.len() ==> match #[trigger] layer_index_spec(encode_utf8(keys[i]@)) {
                Some(l) => l < max_layer(keys) + 1,
                None => true,
            },
        max_layer(keys) + 1 > 0 ==> exists|i: int|
            0 <= i < keys.len() && #[trigger] layer_index_spec(encode_utf8(keys[i]@)) == Some(
                max_layer(keys) as isize,
            ),
    decreases keys.len(),
{
    lemma_max_layer_bounds(keys);
    if keys.len() > 0 {
        let init = keys.drop_last();
        lemma_layer_count_is_max(init);
        lemma_max_layer_bounds(init);
        assert forall|i: int|
            0 <= i < keys.len() implies match #[trigger] layer_index_spec(encode_utf8(keys[i]@)) {
            Some(l) => l < max_layer(keys) + 1,
            None => true,
        } by {
            if i < keys.len() - 1 {
                assert(keys[i] == init[i]);
                assert(match layer_index_spec(encode_utf8(init[i]@)) {
                    Some(l) => l < max_layer(init) + 1,
                    None => true,
                });
            }
        }
        if max_layer(keys) + 1 > 0 {
            if max_layer(keys) == max_layer(init) {
                let i = choose|i: int|
                    0 <= i < init.len() && #[trigger] layer_index_spec(encode_utf8(init[i]@)) == Some(
                        max_layer(init) as isize,
                    );
                assert(keys[i] == init[i]);
            } else {
                assert(keys[keys.len() - 1] == keys.last());
            }
        }
    }
}

/// The number of layers of a model with weights named `keys`: one more than
/// the greatest layer index among them (so 0 where there is none).
pub fn layer_count(keys: &Vec<String>) -> (res: usize)
    requires
        max_layer(keys@) < isize::MAX,
    ensures
        res == max_layer(keys@) + 1,
        forall|i: int|
            0 <= i < keys@.len() ==> match #[trigger] layer_index_spec(encode_utf8(keys@[i]@)) {
                Some(l) => l < res,
                None => true,
            },
        res > 0 ==> exists|i: int|
            0 <= i < keys@.len() && #[trigger] layer_index_spec(encode_utf8(keys@[i]@)) == Some(
                (res - 1) as isize,
            ),
{
    let mut max: isize = -1;
    let mut i: usize = 0;
    while i < keys.len()
        invariant
            i <= keys@.len(),
            max == max_layer(keys@.subrange(0, i as int)),
        decreases keys@.len() - i,
    {
        let l = layer_index(keys[i].as_str());
        proof {
            assert(keys@.subrange(0, i + 1).drop_last() =~= keys@.subrange(0, i as int));
            assert(keys@.subrange(0, i + 1).last() == keys@[i as int]);
        }
        match l {
            Some(l) => {
                if l > max {
                    max = l;
                }
            },
            None => {},
        }
        i = i + 1;
    }
    proof {
        assert(keys@.subrange(0, i as int) =~= keys@);
        lemma_max_layer_bounds(keys@);
        lemma_layer_count_is_max(keys@);
    }
    (max + 1) as usize
}

/// The sizes of a model whose `r_k` weight of layer 0 has shape
/// `(n_head, head_size)` and whose weights are named `keys`. `None` where the
/// head size is not the model's `HEAD_SIZE` or the embedding size
/// `n_head * head_size` does not fit in an `i64`.
pub fn model_dims(r_k_shape: (i64, i64), keys: &Vec<String>) -> (res: Option<ModelDims>)
    requires
        max_layer(keys@) < isize::MAX,
    ensures
        match res {
            Some(d) => {
                &&& r_k_shape.1 == HEAD_SIZE
                &&& d.n_head == r_k_shape.0
                &&& d.head_size == r_k_shape.1
                &&& d.n_embd == r_k_shape.0 * r_k_shape.1
                &&& d.n_layer == max_layer(keys@) + 1
            },
            None => r_k_shape.1 != HEAD_SIZE || !(i64::MIN <= r_k_shape.0 * r_k_shape.1 <= i64::MAX),
        },
{
    let (n_head, head_size) = r_k_shape;
    if head_size != HEAD_SIZE {
        return None;
    }
    let n_embd = match n_head.checked_mul(head_size) {
        Some(e) => e,
        None => {
            return None;
        },
    };
    let n_layer = layer_count(keys);
    Some(ModelDims { n_layer, n_embd, n_head, head_size })
}

/// Integer division rounding toward zero, as Rust's `/` does.
pub open spec fn trunc_div(a: int, b: int) -> int {
    if a >= 0 {
        a / b
    } else {
        -((-a) / b)
    }
}

/// The shapes of the two zero states of a model with `n_layer` layers and
/// embedding size `n_embd`, for a batch of `bsz` (no batch axis where `bsz`
/// is below 1): the token-shift state, then the attention state.
pub fn zero_state_shapes(n_layer: usize, n_embd: i64, bsz: i64) -> (res: (Vec<i64>, Vec<i64>))
    ensures
        bsz >= 1 ==> res.0@ == seq![n_layer as i64, 2, bsz, n_embd] && res.1@ == seq![
            n_layer as i64,
            bsz,
            trunc_div(n_embd as int, HEAD_SIZE as int) as i64,
            HEAD_SIZE,
            HEAD_SIZE,
        ],
        bsz < 1 ==> res.0@ == seq![n_layer as i64, 2, n_embd] && res.1@ == seq![
            n_layer as i64,
            trunc_div(n_embd as int, HEAD_SIZE as int) as i64,
            HEAD_SIZE,
            HEAD_SIZE,
        ],
{
    let layers = n_layer as i64;
    let heads = n_embd / HEAD_SIZE;
    if bsz >= 1 {
        (vec![layers, 2, bsz, n_embd], vec![layers, bsz, heads, HEAD_SIZE, HEAD_SIZE])
    } else {
        (vec![layers, 2, n_embd], vec![layers, heads, HEAD_SIZE, HEAD_SIZE])
    }
}

} // verus!
