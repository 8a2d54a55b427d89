//! Laws of the tags codec: integer routing, dictionary deduplication,
//! and the encode/decode round trip for tag streams.

use vstd::prelude::*;

use crate::tag::TagError;
use crate::tag::Value;
use crate::tag::ValueModel;
use crate::tag::decode_tag_pairs_s;
use crate::tag::decode_tags_s;
use crate::tag::dict_index_of;
use crate::tag::distinct;
use crate::tag::intern_dict;
use crate::tag::lemma_dict_dedup;
use crate::tag::lemma_tile_value_roundtrip;
use crate::tag::tile_of_value;
use crate::tag::value_from_i32;
use crate::tag::value_from_i64;
use crate::tag::value_of_tile;

verus! {

/// Integer routing: a non-negative signed integer converts to the same
/// dictionary entry as the unsigned integer of equal magnitude (`Uint`);
/// a negative signed integer converts to an `SInt` entry that no `Uint`
/// or `Int` entry ever equals; and the 32-bit conversion agrees with the
/// 64-bit one.
pub proof fn lemma_integer_routing(v: i64)
    ensures
        v >= 0 ==> value_from_i64(v) == Value::Uint(v as u64),
        v < 0 ==> value_from_i64(v) == Value::SInt(v),
        v < 0 && v > i64::MIN ==> value_from_i64(v) != Value::Uint((-v) as u64),
        v < 0 ==> value_from_i64(v) != Value::Int(v),
        forall|w: i32| #[trigger] value_from_i32(w) == value_from_i64(w as i64),
{
}

/// The dictionaries after interning each pair of `pairs` in order,
/// starting from `keys` and `values`: one step per call of the tag
/// encoder's `add`.
pub open spec fn enc_dicts(
    pairs: Seq<(Seq<char>, ValueModel)>,
    keys: Seq<Seq<char>>,
    values: Seq<ValueModel>,
) -> (Seq<Seq<char>>, Seq<ValueModel>)
    decreases pairs.len(),
{
    if pairs.len() == 0 {
        (keys, values)
    } else {
        enc_dicts(
            pairs.drop_first(),
            intern_dict(keys, pairs[0].0),
            intern_dict(values, pairs[0].1),
        )
    }
}

/// The tag index stream that interning each pair of `pairs` in order
/// emits, starting from `keys` and `values`.
pub open spec fn enc_tags(
    pairs: Seq<(Seq<char>, ValueModel)>,
    keys: Seq<Seq<char>>,
    values: Seq<ValueModel>,
) -> Seq<u32>
    decreases pairs.len(),
{
    if pairs.len() == 0 {
        Seq::empty()
    } else {
        seq![
            dict_index_of(keys, pairs[0].0) as u32,
            dict_index_of(values, pairs[0].1) as u32,
        ] + enc_tags(
            pairs.drop_first(),
            intern_dict(keys, pairs[0].0),
            intern_dict(values, pairs[0].1),
        )
    }
}

/// Interning extends a dictionary in place: encoding more pairs never
/// disturbs entries already assigned, so the emitted indices resolve
/// against the final dictionaries to exactly the pairs that were added.
proof fn lemma_tags_roundtrip_gen(
    pairs: Seq<(Seq<char>, ValueModel)>,
    keys: Seq<Seq<char>>,
    values: Seq<ValueModel>,
)
    requires
        distinct(keys),
        distinct(values),
        keys.len() + pairs.len() < 0x1_0000_0000,
        values.len() + pairs.len() < 0x1_0000_0000,
    ensures
        ({
            let (fk, fv) = enc_dicts(pairs, keys, values);
            let ft = enc_tags(pairs, keys, values);
            &&& distinct(fk)
            &&& distinct(fv)
            &&& keys.len() <= fk.len() <= keys.len() + pairs.len()
            &&& values.len() <= fv.len() <= values.len() + pairs.len()
            &&& fk.subrange(0, keys.len() as int) == keys
            &&& fv.subrange(0, values.len() as int) == values
            &&& ft.len() == 2 * pairs.len()
            &&& decode_tag_pairs_s(ft, fk, fv.map_values(|m: ValueModel| tile_of_value(m)))
                == Ok::<Seq<(Seq<char>, ValueModel)>, TagError>(pairs)
        }),
    decreases pairs.len(),
{
    let (fk, fv) = enc_dicts(pairs, keys, values);
    let ft = enc_tags(pairs, keys, values);
    if pairs.len() == 0 {
        assert(fk.subrange(0, keys.len() as int) =~= keys);
        assert(fv.subrange(0, values.len() as int) =~= values);
        assert(pairs =~= Seq::<(Seq<char>, ValueModel)>::empty());
    } else {
        let k = pairs[0].0;
        let v = pairs[0].1;
        lemma_dict_dedup(keys, k);
        lemma_dict_dedup(values, v);
        let keys1 = intern_dict(keys, k);
        let values1 = intern_dict(values, v);
        let ik = dict_index_of(keys, k);
        let iv = dict_index_of(values, v);
        lemma_tags_roundtrip_gen(pairs.drop_first(), keys1, values1);
        let ft1 = enc_tags(pairs.drop_first(), keys1, values1);
        assert(ft == seq![ik as u32, iv as u32] + ft1);
        assert(ft.len() == 2 * pairs.len());
        // the interned index resolves in the final dictionaries
        assert(0 <= ik < keys1.len());
        assert(keys1[ik] == k);
        assert(fk.subrange(0, keys1.len() as int)[ik] == fk[ik]);
        assert(fk[ik] == k);
        assert(0 <= iv < values1.len());
        assert(values1[iv] == v);
        assert(fv.subrange(0, values1.len() as int)[iv] == fv[iv]);
        assert(fv[iv] == v);
        // index values fit in 32 bits, so the truncating cast is exact
        assert(ik < 0x1_0000_0000 && iv < 0x1_0000_0000);
        assert((ik as u32) as int == ik);
        assert((iv as u32) as int == iv);
        let wire = fv.map_values(|m: ValueModel| tile_of_value(m));
        assert(ft[0] == ik as u32 && ft[1] == iv as u32);
        assert((ft[0] as int) < fk.len() && (ft[1] as int) < fv.len());
        assert(wire.len() == fv.len());
        assert(wire[iv] == tile_of_value(v));
        lemma_tile_value_roundtrip(v);
        assert(value_of_tile(wire[ft[1] as int]) == Some(v));
        assert(ft.skip(2) =~= ft1);
        // the prefix of the final dictionaries is still the starting one
        assert(fk.subrange(0, keys.len() as int) =~= keys) by {
            assert(forall|i: int|
                0 <= i < keys.len() ==> fk.subrange(0, keys1.len() as int)[i] == #[trigger] fk[i]);
        }
        assert(fv.subrange(0, values.len() as int) =~= values) by {
            assert(forall|i: int|
                0 <= i < values.len() ==> fv.subrange(0, values1.len() as int)[i]
                    == #[trigger] fv[i]);
        }
        // assemble the decoded pair list
        match decode_tag_pairs_s(ft1, fk, wire) {
            Ok(rest) => {
                assert(rest == pairs.drop_first());
                assert((fk[ft[0] as int], v) == pairs[0]);
                assert(seq![pairs[0]] + pairs.drop_first() =~= pairs);
            },
            Err(_) => {
                assert(false);
            },
        }
    }
}

/// Tag encode/decode round-trip: for any sequence of key/value pair
/// additions (repeats included), decoding the emitted index stream
/// against the emitted dictionaries reproduces the exact pair sequence,
/// in order.
pub proof fn lemma_tags_roundtrip(pairs: Seq<(Seq<char>, ValueModel)>)
    requires
        pairs.len() < 0x1_0000_0000,
    ensures
        ({
            let (keys, values) = enc_dicts(pairs, Seq::empty(), Seq::empty());
            let tags = enc_tags(pairs, Seq::empty(), Seq::empty());
            decode_tags_s(tags, keys, values.map_values(|m: ValueModel| tile_of_value(m)))
                == Ok::<Seq<(Seq<char>, ValueModel)>, TagError>(pairs)
        }),
{
    lemma_tags_roundtrip_gen(pairs, Seq::empty(), Seq::empty());
}

} // verus!
