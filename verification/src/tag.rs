//! Tags (attributes) encoder and decoder for MVT: value modelling,
//! dictionary interning, and index-pair streams.

use vstd::prelude::*;

verus! {

/// Comparable wrapper for the MVT values.
///
/// Floats and doubles are held by their raw byte pattern, never as
/// floating-point values: dictionary keys must compare and hash by exact
/// bit pattern.
#[derive(Debug, Clone, PartialEq, Eq, Hash)]
pub enum Value {
    /// A UTF-8 string.
    String(String),
    /// A 32-bit float, by its native byte pattern.
    Float([u8; 4]),
    /// A 64-bit float, by its native byte pattern.
    Double([u8; 8]),
    /// A 64-bit signed integer, varint-encoded on the wire.
    Int(i64),
    /// A 64-bit unsigned integer.
    Uint(u64),
    /// A 64-bit signed integer, zig-zag encoded on the wire.
    SInt(i64),
    /// A boolean.
    Bool(bool),
}

/// The mathematical model of a [`Value`]: its variant and contents.
pub enum ValueModel {
    /// Model of `Value::String`.
    Str(Seq<char>),
    /// Model of `Value::Float`.
    Float(Seq<u8>),
    /// Model of `Value::Double`.
    Double(Seq<u8>),
    /// Model of `Value::Int`.
    Int(int),
    /// Model of `Value::Uint`.
    Uint(int),
    /// Model of `Value::SInt`.
    SInt(int),
    /// Model of `Value::Bool`.
    Bool(bool),
}

impl View for Value {
    type V = ValueModel;

    open spec fn view(&self) -> ValueModel {
        match self {
            Value::String(s) => ValueModel::Str(s@),
            Value::Float(b) => ValueModel::Float(b@),
            Value::Double(b) => ValueModel::Double(b@),
            Value::Int(v) => ValueModel::Int(*v as int),
            Value::Uint(v) => ValueModel::Uint(*v as int),
            Value::SInt(v) => ValueModel::SInt(*v as int),
            Value::Bool(v) => ValueModel::Bool(*v),
        }
    }
}

/// The wire shape of a layer-dictionary value: at most one of the seven
/// optional fields is meant to be set, but a decoder must cope with any
/// combination.
#[derive(Debug, Clone, PartialEq)]
pub struct TileValue {
    /// A UTF-8 string value.
    pub string_value: Option<String>,
    /// A 32-bit float value, by its native byte pattern.
    pub float_bits: Option<[u8; 4]>,
    /// A 64-bit float value, by its native byte pattern.
    pub double_bits: Option<[u8; 8]>,
    /// A signed integer value.
    pub int_value: Option<i64>,
    /// An unsigned integer value.
    pub uint_value: Option<u64>,
    /// A zig-zag encoded signed integer value.
    pub sint_value: Option<i64>,
    /// A boolean value.
    pub bool_value: Option<bool>,
}

/// The mathematical model of a [`TileValue`]: which fields are set, and
/// with what.
pub struct TileValueModel {
    /// Model of `string_value`.
    pub string_value: Option<Seq<char>>,
    /// Model of `float_bits`.
    pub float_bits: Option<Seq<u8>>,
    /// Model of `double_bits`.
    pub double_bits: Option<Seq<u8>>,
    /// Model of `int_value`.
    pub int_value: Option<int>,
    /// Model of `uint_value`.
    pub uint_value: Option<int>,
    /// Model of `sint_value`.
    pub sint_value: Option<int>,
    /// Model of `bool_value`.
    pub bool_value: Option<bool>,
}

impl View for TileValue {
    type V = TileValueModel;

    open spec fn view(&self) -> TileValueModel {
        TileValueModel {
            string_value: match self.string_value {
                Some(s) => Some(s@),
                None => None,
            },
            float_bits: match self.float_bits {
                Some(b) => Some(b@),
                None => None,
            },
            double_bits: match self.double_bits {
                Some(b) => Some(b@),
                None => None,
            },
            int_value: match self.int_value {
                Some(v) => Some(v as int),
                None => None,
            },
            uint_value: match self.uint_value {
                Some(v) => Some(v as int),
                None => None,
            },
            sint_value: match self.sint_value {
                Some(v) => Some(v as int),
                None => None,
            },
            bool_value: match self.bool_value {
                Some(v) => Some(v),
                None => None,
            },
        }
    }
}

/// The wire model with no field set.
pub open spec fn empty_tile_model() -> TileValueModel {
    TileValueModel {
        string_value: None,
        float_bits: None,
        double_bits: None,
        int_value: None,
        uint_value: None,
        sint_value: None,
        bool_value: None,
    }
}

/// The wire shape of a value: exactly one field set, matching its variant.
pub open spec fn tile_of_value(m: ValueModel) -> TileValueModel {
    match m {
        ValueModel::Str(s) => TileValueModel { string_value: Some(s), ..empty_tile_model() },
        ValueModel::Float(b) => TileValueModel { float_bits: Some(b), ..empty_tile_model() },
        ValueModel::Double(b) => TileValueModel { double_bits: Some(b), ..empty_tile_model() },
        ValueModel::Int(v) => TileValueModel { int_value: Some(v), ..empty_tile_model() },
        ValueModel::Uint(v) => TileValueModel { uint_value: Some(v), ..empty_tile_model() },
        ValueModel::SInt(v) => TileValueModel { sint_value: Some(v), ..empty_tile_model() },
        ValueModel::Bool(v) => TileValueModel { bool_value: Some(v), ..empty_tile_model() },
    }
}

/// Interprets a wire value: the first set field, in the order string,
/// float, double, int, uint, sint, bool, decides the variant; a value
/// with no field set cannot be interpreted.
pub open spec fn value_of_tile(t: TileValueModel) -> Option<ValueModel> {
    if t.string_value is Some {
        Some(ValueModel::Str(t.string_value->0))
    } else if t.float_bits is Some {
        Some(ValueModel::Float(t.float_bits->0))
    } else if t.double_bits is Some {
        Some(ValueModel::Double(t.double_bits->0))
    } else if t.int_value is Some {
        Some(ValueModel::Int(t.int_value->0))
    } else if t.uint_value is Some {
        Some(ValueModel::Uint(t.uint_value->0))
    } else if t.sint_value is Some {
        Some(ValueModel::SInt(t.sint_value->0))
    } else if t.bool_value is Some {
        Some(ValueModel::Bool(t.bool_value->0))
    } else {
        None
    }
}

/// Interpreting the wire shape of a value gives the value back: the two
/// conversions are inverse on well-formed wire values.
pub proof fn lemma_tile_value_roundtrip(m: ValueModel)
    ensures
        value_of_tile(tile_of_value(m)) == Some(m),
{
}

impl Value {
    /// Converts this value into its wire shape.
    pub fn into_tile_value(self) -> (r: TileValue)
        ensures
            r@ == tile_of_value(self@),
    {
        match self {
            Value::String(v) => TileValue {
                string_value: Some(v),
                float_bits: None,
                double_bits: None,
                int_value: None,
                uint_value: None,
                sint_value: None,
                bool_value: None,
            },
            Value::Float(v) => TileValue {
                string_value: None,
                float_bits: Some(v),
                double_bits: None,
                int_value: None,
                uint_value: None,
                sint_value: None,
                bool_value: None,
            },
            Value::Double(v) => TileValue {
                string_value: None,
                float_bits: None,
                double_bits: Some(v),
                int_value: None,
                uint_value: None,
                sint_value: None,
                bool_value: None,
            },
            Value::Int(v) => TileValue {
                string_value: None,
                float_bits: None,
                double_bits: None,
                int_value: Some(v),
                uint_value: None,
                sint_value: None,
                bool_value: None,
            },
            Value::Uint(v) => TileValue {
                string_value: None,
                float_bits: None,
                double_bits: None,
                int_value: None,
                uint_value: Some(v),
                sint_value: None,
                bool_value: None,
            },
            Value::SInt(v) => TileValue {
                string_value: None,
                float_bits: None,
                double_bits: None,
                int_value: None,
                uint_value: None,
                sint_value: Some(v),
                bool_value: None,
            },
            Value::Bool(v) => TileValue {
                string_value: None,
                float_bits: None,
                double_bits: None,
                int_value: None,
                uint_value: None,
                sint_value: None,
                bool_value: Some(v),
            },
        }
    }

    /// Interprets a wire value, if any of its fields is set.
    pub fn from_tile_value(tv: &TileValue) -> (r: Option<Value>)
        ensures
            ({
                let m = value_of_tile(tv@);
                match r {
                    Some(v) => m == Some(v@),
                    None => m is None,
                }
            }),
    {
        if let Some(s) = &tv.string_value {
            Some(Value::String(s.clone()))
        } else if let Some(b) = tv.float_bits {
            Some(Value::Float(b))
        } else if let Some(b) = tv.double_bits {
            Some(Value::Double(b))
        } else if let Some(v) = tv.int_value {
            Some(Value::Int(v))
        } else if let Some(v) = tv.uint_value {
            Some(Value::Uint(v))
        } else if let Some(v) = tv.sint_value {
            Some(Value::SInt(v))
        } else if let Some(v) = tv.bool_value {
            Some(Value::Bool(v))
        } else {
            None
        }
    }
}

impl Default for TileValue {
    /// A wire value with no field set.
    fn default() -> (r: Self)
        ensures
            r@ == empty_tile_model(),
    {
        TileValue {
            string_value: None,
            float_bits: None,
            double_bits: None,
            int_value: None,
            uint_value: None,
            sint_value: None,
            bool_value: None,
        }
    }
}

/// What converting a signed 64-bit integer yields: `Uint` when
/// non-negative, else `SInt` — never `Int`, which is reachable only by
/// explicit construction.
pub open spec fn value_from_i64(v: i64) -> Value {
    if v >= 0 {
        Value::Uint(v as u64)
    } else {
        Value::SInt(v)
    }
}

/// What converting a signed 32-bit integer yields.
pub open spec fn value_from_i32(v: i32) -> Value {
    if v >= 0 {
        Value::Uint(v as u64)
    } else {
        Value::SInt(v as i64)
    }
}

impl From<String> for Value {
    fn from(v: String) -> Self {
        Value::String(v)
    }
}

impl vstd::std_specs::convert::FromSpecImpl<String> for Value {
    open spec fn obeys_from_spec() -> bool {
        true
    }

    open spec fn from_spec(v: String) -> Self {
        Value::String(v)
    }
}

impl From<&str> for Value {
    fn from(v: &str) -> (r: Self)
        ensures
            r@ == ValueModel::Str(v@),
    {
        Value::String(v.to_owned())
    }
}

impl vstd::std_specs::convert::FromSpecImpl<&str> for Value {
    /// A borrowed string is copied into a fresh `String`, so the exact
    /// result value cannot be named here; the `From` impl carries the
    /// contract instead.
    open spec fn obeys_from_spec() -> bool {
        false
    }

    open spec fn from_spec(v: &str) -> Self {
        Value::Bool(false)
    }
}

impl From<u64> for Value {
    fn from(v: u64) -> Self {
        Value::Uint(v)
    }
}

impl vstd::std_specs::convert::FromSpecImpl<u64> for Value {
    open spec fn obeys_from_spec() -> bool {
        true
    }

    open spec fn from_spec(v: u64) -> Self {
        Value::Uint(v)
    }
}

impl From<u32> for Value {
    fn from(v: u32) -> Self {
        Value::Uint(v as u64)
    }
}

impl vstd::std_specs::convert::FromSpecImpl<u32> for Value {
    open spec fn obeys_from_spec() -> bool {
        true
    }

    open spec fn from_spec(v: u32) -> Self {
        Value::Uint(v as u64)
    }
}

impl From<i64> for Value {
    fn from(v: i64) -> Self {
        if v >= 0 {
            Value::Uint(v as u64)
        } else {
            Value::SInt(v)
        }
    }
}

impl vstd::std_specs::convert::FromSpecImpl<i64> for Value {
    open spec fn obeys_from_spec() -> bool {
        true
    }

    open spec fn from_spec(v: i64) -> Self {
        value_from_i64(v)
    }
}

impl From<i32> for Value {
    fn from(v: i32) -> Self {
        if v >= 0 {
            Value::Uint(v as u64)
        } else {
            Value::SInt(v as i64)
        }
    }
}

impl vstd::std_specs::convert::FromSpecImpl<i32> for Value {
    open spec fn obeys_from_spec() -> bool {
        true
    }

    open spec fn from_spec(v: i32) -> Self {
        value_from_i32(v)
    }
}

impl From<bool> for Value {
    fn from(v: bool) -> Self {
        Value::Bool(v)
    }
}

impl vstd::std_specs::convert::FromSpecImpl<bool> for Value {
    open spec fn obeys_from_spec() -> bool {
        true
    }

    open spec fn from_spec(v: bool) -> Self {
        Value::Bool(v)
    }
}

/// No two entries of the dictionary are equal.
pub open spec fn distinct<A>(d: Seq<A>) -> bool {
    forall|i: int, j: int| 0 <= i < j < d.len() ==> #[trigger] d[i] != #[trigger] d[j]
}

/// The index interning assigns to `x`: the index of its first occurrence
/// in `d`, or `d.len()` (the index it would be appended at) when absent.
pub open spec fn dict_index_of<A>(d: Seq<A>, x: A) -> int
    decreases d.len(),
{
    if d.len() == 0 {
        0
    } else if d[0] == x {
        0
    } else {
        1 + dict_index_of(d.drop_first(), x)
    }
}

/// The dictionary after interning `x`: unchanged when present, extended
/// by `x` when absent.
pub open spec fn intern_dict<A>(d: Seq<A>, x: A) -> Seq<A> {
    if d.contains(x) {
        d
    } else {
        d.push(x)
    }
}

/// In a duplicate-free dictionary, any index holding `x` is the interned
/// index of `x`.
pub proof fn lemma_dict_index_present<A>(d: Seq<A>, x: A, i: int)
    requires
        distinct(d),
        0 <= i < d.len(),
        d[i] == x,
    ensures
        dict_index_of(d, x) == i,
        d.contains(x),
    decreases d.len(),
{
    if d[0] == x {
        assert(i == 0);
    } else {
        assert(i >= 1);
        let dd = d.drop_first();
        assert(forall|p: int, q: int|
            0 <= p < q < dd.len() ==> #[trigger] dd[p] != #[trigger] dd[q]) by {
            assert(forall|p: int, q: int|
                0 <= p < q < dd.len() ==> #[trigger] dd[p] == d[p + 1] && #[trigger] dd[q] == d[q
                    + 1]);
        }
        assert(d.drop_first()[i - 1] == d[i]);
        lemma_dict_index_present(d.drop_first(), x, i - 1);
    }
}

/// When `x` is absent, its interned index is the dictionary's length.
pub proof fn lemma_dict_index_absent<A>(d: Seq<A>, x: A)
    requires
        forall|j: int| 0 <= j < d.len() ==> d[j] != x,
    ensures
        dict_index_of(d, x) == d.len(),
        !d.contains(x),
    decreases d.len(),
{
    if d.len() > 0 {
        assert(forall|j: int|
            0 <= j < d.drop_first().len() ==> #[trigger] d.drop_first()[j] == d[j + 1]);
        lemma_dict_index_absent(d.drop_first(), x);
    }
}

/// Dictionary deduplication: interning keeps the dictionary free of
/// duplicates, interning the same entry a second time changes nothing and
/// yields the same index, and the dictionary grows exactly when the entry
/// is new — its length is the number of distinct entries ever added.
pub proof fn lemma_dict_dedup<A>(d: Seq<A>, x: A)
    requires
        distinct(d),
    ensures
        distinct(intern_dict(d, x)),
        intern_dict(intern_dict(d, x), x) == intern_dict(d, x),
        dict_index_of(intern_dict(d, x), x) == dict_index_of(d, x),
        0 <= dict_index_of(d, x) <= d.len(),
        dict_index_of(d, x) < intern_dict(d, x).len(),
        intern_dict(d, x)[dict_index_of(d, x)] == x,
        intern_dict(d, x).len() == if d.contains(x) {
            d.len()
        } else {
            d.len() + 1
        },
{
    if d.contains(x) {
        let i = choose|i: int| 0 <= i < d.len() && d[i] == x;
        lemma_dict_index_present(d, x, i);
    } else {
        assert(forall|j: int| 0 <= j < d.len() ==> d[j] != x);
        lemma_dict_index_absent(d, x);
        let d2 = d.push(x);
        assert(distinct(d2)) by {
            assert(forall|p: int| 0 <= p < d.len() ==> #[trigger] d2[p] == d[p]);
            assert(d2[d.len() as int] == x);
        }
        assert(d2.contains(x)) by {
            assert(d2[d.len() as int] == x);
        }
        lemma_dict_index_present(d2, x, d.len() as int);
    }
}

/// Utility for encoding MVT tags (attributes).
///
/// Interns per-feature key/value pairs into two order-preserving
/// dictionaries and accumulates the per-feature index-pair stream.
pub struct TagsEncoder {
    keys: indexmap::IndexSet<String, foldhash::fast::RandomState>,
    values: indexmap::IndexSet<Value, foldhash::fast::RandomState>,
    tags: Vec<u32>,
}

impl TagsEncoder {
    /// The key dictionary, in insertion order.
    pub closed spec fn keys_model(self) -> Seq<Seq<char>> {
        crate::dict::key_elems(self.keys)
    }

    /// The value dictionary, in insertion order.
    pub closed spec fn values_model(self) -> Seq<ValueModel> {
        crate::dict::value_elems(self.values)
    }

    /// The pending per-feature index pairs.
    pub closed spec fn tags_model(self) -> Seq<u32> {
        self.tags@
    }

    /// Both dictionaries are free of duplicates.
    pub open spec fn wf(self) -> bool {
        &&& distinct(self.keys_model())
        &&& distinct(self.values_model())
    }

    /// Creates a new encoder with empty dictionaries.
    pub fn new() -> (r: Self)
        ensures
            r.wf(),
            r.keys_model() == Seq::<Seq<char>>::empty(),
            r.values_model() == Seq::<ValueModel>::empty(),
            r.tags_model() == Seq::<u32>::empty(),
    {
        Self { keys: crate::dict::new_key_set(), values: crate::dict::new_value_set(), tags: Vec::new() }
    }

    /// Adds a key-value pair for the current feature: both are interned
    /// (first seen, first assigned) and their indices are appended to the
    /// tag stream, truncated to 32 bits as on the wire.
    pub fn add(&mut self, key: &str, value: Value)
        requires
            old(self).wf(),
        ensures
            final (self).wf(),
            final (self).keys_model() == intern_dict(old(self).keys_model(), key@),
            final (self).values_model() == intern_dict(old(self).values_model(), value@),
            final (self).tags_model() == old(self).tags_model() + seq![
                dict_index_of(old(self).keys_model(), key@) as u32,
                dict_index_of(old(self).values_model(), value@) as u32,
            ],
    {
        let ghost keys0 = self.keys_model();
        let ghost values0 = self.values_model();
        proof {
            lemma_dict_dedup(keys0, key@);
            lemma_dict_dedup(values0, value@);
        }
        let key_idx: usize = match crate::dict::key_index_of(&self.keys, key) {
            None => {
                proof {
                    lemma_dict_index_absent(keys0, key@);
                }
                crate::dict::key_insert_full(&mut self.keys, key)
            },
            Some(idx) => {
                proof {
                    lemma_dict_index_present(keys0, key@, idx as int);
                }
                idx
            },
        };
        let ghost value_v = value@;
        let value_idx: usize = match crate::dict::value_index_of(&self.values, &value) {
            None => {
                proof {
                    lemma_dict_index_absent(values0, value_v);
                }
                crate::dict::value_insert_full(&mut self.values, value)
            },
            Some(idx) => {
                proof {
                    lemma_dict_index_present(values0, value_v, idx as int);
                }
                idx
            },
        };
        self.tags.push(#[verifier::truncate] (key_idx as u32));
        self.tags.push(#[verifier::truncate] (value_idx as u32));
    }

    /// Takes the key-value index buffer for the current feature, leaving
    /// the dictionaries untouched and the buffer empty.
    pub fn take_tags(&mut self) -> (r: Vec<u32>)
        ensures
            r@ == old(self).tags_model(),
            final (self).tags_model() == Seq::<u32>::empty(),
            final (self).keys_model() == old(self).keys_model(),
            final (self).values_model() == old(self).values_model(),
            old(self).wf() ==> final (self).wf(),
    {
        let mut t: Vec<u32> = Vec::new();
        core::mem::swap(&mut t, &mut self.tags);
        t
    }

    /// Consumes the encoder and returns the ordered key list and the
    /// ordered value list, converted to their wire shape, for the layer.
    pub fn into_keys_and_values(self) -> (r: (Vec<String>, Vec<TileValue>))
        ensures
            r.0@.len() == self.keys_model().len(),
            forall|i: int| 0 <= i < r.0@.len() ==> #[trigger] r.0@[i]@ == self.keys_model()[i],
            r.1@.len() == self.values_model().len(),
            forall|i: int|
                0 <= i < r.1@.len() ==> #[trigger] r.1@[i]@ == tile_of_value(
                    self.values_model()[i],
                ),
    {
        let TagsEncoder { keys, values, tags: _tags } = self;
        let key_vec = crate::dict::key_set_into_vec(keys);
        let raw_values = crate::dict::value_set_into_vec(values);
        let ghost rv = raw_values@;
        let mut vals = raw_values;
        let mut out: Vec<TileValue> = Vec::new();
        while vals.len() > 0
            invariant
                out@.len() + vals@.len() == rv.len(),
                vals@ == rv.subrange(out@.len() as int, rv.len() as int),
                forall|i: int|
                    0 <= i < out@.len() ==> #[trigger] out@[i]@ == tile_of_value(rv[i]@),
            decreases vals@.len(),
        {
            let ghost done = out@.len() as int;
            let v = vals.remove(0);
            proof {
                assert(v == rv[done]);
                assert(vals@ =~= rv.subrange(done + 1, rv.len() as int));
            }
            out.push(v.into_tile_value());
        }
        (key_vec, out)
    }
}

impl Default for TagsEncoder {
    /// Same as [`TagsEncoder::new`].
    fn default() -> (r: Self)
        ensures
            r.wf(),
            r.keys_model() == Seq::<Seq<char>>::empty(),
            r.values_model() == Seq::<ValueModel>::empty(),
            r.tags_model() == Seq::<u32>::empty(),
    {
        Self::new()
    }
}

/// A failure while resolving a feature's tag index stream.
#[derive(Debug, Clone, Copy, PartialEq, Eq, Structural)]
pub enum TagError {
    /// The index stream has odd length.
    OddLength,
    /// A key index is out of bounds for the layer's key dictionary.
    KeyIndexOutOfBounds(u32),
    /// A value index is out of bounds for the layer's value dictionary.
    ValueIndexOutOfBounds(u32),
    /// The referenced dictionary value has no field set.
    UnsupportedValue(u32),
}

/// What resolving the pairs of an even-length tag stream yields: each
/// `(key index, value index)` pair in order, failing on the first index
/// out of bounds or uninterpretable value.
pub open spec fn decode_tag_pairs_s(
    tags: Seq<u32>,
    keys: Seq<Seq<char>>,
    values: Seq<TileValueModel>,
) -> Result<Seq<(Seq<char>, ValueModel)>, TagError>
    decreases tags.len(),
{
    if tags.len() < 2 {
        Ok(Seq::empty())
    } else {
        let k = tags[0];
        let v = tags[1];
        if k >= keys.len() {
            Err(TagError::KeyIndexOutOfBounds(k))
        } else if v >= values.len() {
            Err(TagError::ValueIndexOutOfBounds(v))
        } else {
            match value_of_tile(values[v as int]) {
                Some(m) => match decode_tag_pairs_s(tags.skip(2), keys, values) {
                    Ok(rest) => Ok(seq![(keys[k as int], m)] + rest),
                    Err(e) => Err(e),
                },
                None => Err(TagError::UnsupportedValue(v)),
            }
        }
    }
}

/// What decoding a tag stream yields: an odd-length stream is rejected,
/// an even-length one resolved pair by pair.
pub open spec fn decode_tags_s(
    tags: Seq<u32>,
    keys: Seq<Seq<char>>,
    values: Seq<TileValueModel>,
) -> Result<Seq<(Seq<char>, ValueModel)>, TagError> {
    if tags.len() % 2 != 0 {
        Err(TagError::OddLength)
    } else {
        decode_tag_pairs_s(tags, keys, values)
    }
}

/// Prepends already-resolved pairs to the outcome of resolving the rest.
spec fn tags_cont(
    acc: Seq<(Seq<char>, ValueModel)>,
    r: Result<Seq<(Seq<char>, ValueModel)>, TagError>,
) -> Result<Seq<(Seq<char>, ValueModel)>, TagError> {
    match r {
        Ok(rest) => Ok(acc + rest),
        Err(e) => Err(e),
    }
}

/// Utility for decoding MVT tags: resolves index pairs against a layer's
/// key and value dictionaries.
pub struct TagsDecoder {
    keys: Vec<String>,
    values: Vec<TileValue>,
}

impl TagsDecoder {
    /// The layer's key dictionary.
    pub closed spec fn keys_model(self) -> Seq<Seq<char>> {
        Seq::new(self.keys@.len(), |i: int| self.keys@[i]@)
    }

    /// The layer's value dictionary.
    pub closed spec fn values_model(self) -> Seq<TileValueModel> {
        Seq::new(self.values@.len(), |i: int| self.values@[i]@)
    }

    /// Creates a decoder for one layer's dictionaries.
    pub fn new(keys: Vec<String>, values: Vec<TileValue>) -> (r: Self)
        ensures
            r.keys_model().len() == keys@.len(),
            forall|i: int| 0 <= i < keys@.len() ==> r.keys_model()[i] == #[trigger] keys@[i]@,
            r.values_model().len() == values@.len(),
            forall|i: int| 0 <= i < values@.len() ==> r.values_model()[i] == #[trigger] values@[i]@,
    {
        Self { keys, values }
    }

    /// Resolves a feature's tag index stream into its key/value pairs.
    ///
    /// Returns exactly what [`decode_tags_s`] states for this layer's
    /// dictionaries, as values or as an error.
    #[verifier::loop_isolation(false)]
    pub fn decode(&self, tags: &[u32]) -> (r: Result<Vec<(String, Value)>, TagError>)
        ensures
            ({
                let spec_r = decode_tags_s(tags@, self.keys_model(), self.values_model());
                match r {
                    Ok(v) => spec_r matches Ok(ps) && v@.len() == ps.len() && (forall|i: int|
                        0 <= i < ps.len() ==> #[trigger] v@[i].0@ == ps[i].0 && v@[i].1@
                            == ps[i].1),
                    Err(e) => spec_r == Err::<Seq<(Seq<char>, ValueModel)>, TagError>(e),
                }
            }),
    {
        if tags.len() % 2 != 0 {
            return Err(TagError::OddLength);
        }
        let mut out: Vec<(String, Value)> = Vec::new();
        let mut i: usize = 0;
        proof {
            assert(tags@.skip(0) =~= tags@);
            let resolved0 = Seq::new(out@.len() as nat, |p: int| (out@[p].0@, out@[p].1@));
            assert(resolved0 =~= Seq::<(Seq<char>, ValueModel)>::empty());
            match decode_tag_pairs_s(tags@, self.keys_model(), self.values_model()) {
                Ok(rest) => {
                    assert(resolved0 + rest =~= rest);
                },
                Err(_) => {},
            }
        }
        while i < tags.len()
            invariant
                i <= tags@.len(),
                i % 2 == 0,
                tags@.len() % 2 == 0,
                tags_cont(
                    Seq::new(out@.len() as nat, |p: int| (out@[p].0@, out@[p].1@)),
                    decode_tag_pairs_s(tags@.skip(i as int), self.keys_model(), self.values_model()),
                ) == decode_tag_pairs_s(tags@, self.keys_model(), self.values_model()),
            decreases tags@.len() - i,
        {
            let ghost rem = tags@.skip(i as int);
            assert(rem.len() >= 2);
            assert(rem[0] == tags@[i as int] && rem[1] == tags@[i as int + 1]);
            let k = tags[i];
            let v = tags[i + 1];
            if k as usize >= self.keys.len() {
                return Err(TagError::KeyIndexOutOfBounds(k));
            }
            if v as usize >= self.values.len() {
                return Err(TagError::ValueIndexOutOfBounds(v));
            }
            let key_str = self.keys[k as usize].clone();
            let value = match Value::from_tile_value(&self.values[v as usize]) {
                Some(value) => value,
                None => {
                    return Err(TagError::UnsupportedValue(v));
                },
            };
            let ghost out0 = out@;
            out.push((key_str, value));
            proof {
                assert(rem.skip(2) =~= tags@.skip(i as int + 2));
                let m = value_of_tile(self.values_model()[v as int]);
                assert(m == Some(value@));
                let resolved = Seq::new(
                    out0.len() as nat,
                    |p: int| (out0[p].0@, out0[p].1@),
                );
                let resolved2 = Seq::new(
                    out@.len() as nat,
                    |p: int| (out@[p].0@, out@[p].1@),
                );
                assert(resolved2 =~= resolved.push((self.keys_model()[k as int], value@)));
                match decode_tag_pairs_s(tags@.skip(i as int + 2), self.keys_model(), self.values_model()) {
                    Ok(rest) => {
                        assert(resolved + (seq![(self.keys_model()[k as int], value@)] + rest)
                            =~= resolved2 + rest);
                    },
                    Err(_) => {},
                }
            }
            i = i + 2;
        }
        proof {
            assert(tags@.skip(i as int).len() == 0);
            assert(decode_tag_pairs_s(tags@.skip(i as int), self.keys_model(), self.values_model())
                == Ok::<Seq<(Seq<char>, ValueModel)>, TagError>(Seq::empty()));
            let resolved = Seq::new(out@.len() as nat, |p: int| (out@[p].0@, out@[p].1@));
            assert(resolved + Seq::<(Seq<char>, ValueModel)>::empty() =~= resolved);
        }
        Ok(out)
    }
}

} // verus!
