//! What holds of the library as a whole.

use vstd::prelude::*;
use vstd::arithmetic::div_mod::*;
use vstd::arithmetic::power2::*;
use crate::buffer::PixelBufferView;
use crate::error::TransformError;
use crate::lut::{LookupTable, LookupTableBuilder, TransformParams, table_of};
use crate::registry::{distinct_names, has_name, lookup, names_of, position, registered};
use crate::affine::{affine_byte, affine_value, product_value};
use crate::rounding::{lemma_rne_fixed, lemma_rne_monotone, rne};
use crate::binary64::{
    adjust_spec,
    is_finite_bits,
    lemma_quotient_whole,
    round_half_away,
    scaled_value,
    significand,
    binade,
    ONE,
    ZERO,
};
use crate::strategy::{Strategy, map_all};

verus! {

/// An own strategy sends every pixel byte through the table: after a
/// successful run, the destination's byte at a pixel offset is the table's
/// entry for the source byte at that offset, and the storage keeps its
/// length.
pub proof fn lemma_own_output_on_pixels(
    strategy: Strategy,
    table: Seq<u8>,
    src: PixelBufferView,
    dst: Seq<u8>,
)
    requires
        strategy.own(),
        dst.len() == src.data.len(),
    ensures
        strategy.output(table, src, dst).len() == dst.len(),
        forall|i: int|
            src.is_active(i) ==> strategy.output(table, src, dst)[i] == table[src.data[i] as int],
{
}

/// The three own strategies agree byte for byte on every pixel of the
/// image, from whatever destination contents each of them starts. They may
/// differ on row padding only.
pub proof fn lemma_strategies_equivalent(
    first: Strategy,
    second: Strategy,
    table: Seq<u8>,
    src: PixelBufferView,
    first_dst: Seq<u8>,
    second_dst: Seq<u8>,
)
    requires
        first.own(),
        second.own(),
        first_dst.len() == src.data.len(),
        second_dst.len() == src.data.len(),
    ensures
        forall|i: int|
            src.is_active(i) ==> first.output(table, src, first_dst)[i] == second.output(
                table,
                src,
                second_dst,
            )[i],
{
    lemma_own_output_on_pixels(first, table, src, first_dst);
    lemma_own_output_on_pixels(second, table, src, second_dst);
}

/// On an image without row padding the three own strategies leave the same
/// storage, whatever the destination held before.
pub proof fn lemma_strategies_equal_without_padding(
    first: Strategy,
    second: Strategy,
    table: Seq<u8>,
    src: PixelBufferView,
    first_dst: Seq<u8>,
    second_dst: Seq<u8>,
)
    requires
        first.own(),
        second.own(),
        src.wf(),
        src.row_stride == src.active_len(),
        first_dst.len() == src.data.len(),
        second_dst.len() == src.data.len(),
    ensures
        first.output(table, src, first_dst) == second.output(table, src, second_dst),
{
    let a = first.output(table, src, first_dst);
    let b = second.output(table, src, second_dst);
    lemma_own_output_on_pixels(first, table, src, first_dst);
    lemma_own_output_on_pixels(second, table, src, second_dst);
    assert forall|i: int| 0 <= i < a.len() implies a[i] == b[i] by {
        if src.row_stride > 0 {
            lemma_mod_bound(i, src.row_stride as int);
        }
        assert(src.is_active(i));
    }
    assert(a =~= b);
}

/// The sequential and the row-chunked strategy leave row padding as the
/// destination held it.
pub proof fn lemma_padding_untouched(table: Seq<u8>, src: PixelBufferView, dst: Seq<u8>, i: int)
    requires
        0 <= i < dst.len(),
        !src.is_active(i),
    ensures
        Strategy::Sequential.output(table, src, dst)[i] == dst[i],
        Strategy::RowChunkedParallel.output(table, src, dst)[i] == dst[i],
{
}

/// A number above 255 gives the byte 255, and a number below zero gives the
/// byte 0. Every number gives a byte.
pub proof fn lemma_saturation(units: int)
    ensures
        units > 255 * pow2(1074) ==> adjust_spec(units) == 255,
        units < 0 ==> adjust_spec(units) == 0,
        0 <= adjust_spec(units) <= 255,
{
    let d = pow2(1074) as int;
    lemma_pow2_pos(1074);
    if units < 0 {
        lemma_div_pos_is_pos(2 * (-units) + d, 2 * d);
    }
    if units > 255 * d {
        lemma_div_is_ordered(255 * (2 * d), 2 * units + d, 2 * d);
        lemma_div_multiples_vanish(255, 2 * d);
    }
}

/// An input byte `v` for which `v * scale + offset` lies above 255 is sent
/// to 255, and one for which it lies below zero is sent to 0.
pub proof fn lemma_table_saturation(params: TransformParams, v: int)
    requires
        0 <= v < 256,
    ensures
        affine_value(v, params.scale_bits, params.offset_bits) > 255 * pow2(1074) ==> table_of(
            params,
        )[v] == 255,
        affine_value(v, params.scale_bits, params.offset_bits) < 0 ==> table_of(params)[v] == 0,
{
    lemma_saturation(affine_value(v, params.scale_bits, params.offset_bits));
}

/// The magnitude of a finite number lies below `2^2098` units.
pub proof fn lemma_finite_magnitude(bits: u64)
    requires
        is_finite_bits(bits),
    ensures
        -pow2(2098) + pow2(2045) <= scaled_value(bits) <= pow2(2098) - pow2(2045),
{
    let field = (bits >> 52) & 0x7ff;
    let fraction = bits & 0x000f_ffff_ffff_ffff;
    assert(fraction < 0x0010_0000_0000_0000) by (bit_vector)
        requires
            fraction == bits & 0x000f_ffff_ffff_ffff,
    ;
    assert(field <= 0x7ff) by (bit_vector)
        requires
            field == (bits >> 52) & 0x7ff,
    ;
    lemma2_to64();
    lemma2_to64_rest();
    let m = significand(bits);
    let e = binade(bits);
    lemma_pow2_pos(e);
    lemma_pow2_adds(53, 2045);
    if e < 2045 {
        lemma_pow2_strictly_increases(e, 2045);
    }
    assert(m * pow2(e) <= (pow2(53) - 1) * pow2(2045)) by (nonlinear_arith)
        requires
            m <= pow2(53) - 1,
            0 < pow2(e) <= pow2(2045),
    ;
    assert((pow2(53) - 1) * pow2(2045) == pow2(53) * pow2(2045) - pow2(2045))
        by (nonlinear_arith);
}

/// Where the rounded product lies at or beyond `2^2098` units, which is
/// where binary64 arithmetic has an infinity, the byte is 255 for a product
/// above zero and 0 for one below, whatever the finite offset.
pub proof fn lemma_overflow_saturates(params: TransformParams, v: int)
    requires
        is_finite_bits(params.offset_bits),
    ensures
        product_value(v, params.scale_bits) >= pow2(2098) ==> affine_byte(
            v,
            params.scale_bits,
            params.offset_bits,
        ) == 255,
        product_value(v, params.scale_bits) <= -pow2(2098) ==> affine_byte(
            v,
            params.scale_bits,
            params.offset_bits,
        ) == 0,
{
    let product = product_value(v, params.scale_bits);
    let offset = scaled_value(params.offset_bits);
    let edge = pow2(2045) as int;
    lemma_finite_magnitude(params.offset_bits);
    lemma2_to64();
    lemma2_to64_rest();
    lemma_pow2_pos(2045);
    lemma_rne_fixed(1, 2045);
    assert(1nat * pow2(2045) == pow2(2045));
    lemma_pow2_adds(8, 1074);
    lemma_pow2_strictly_increases(1082, 2045);
    if product >= pow2(2098) {
        lemma_rne_monotone(edge, product + offset);
    }
    if product <= -pow2(2098) {
        lemma_rne_monotone(product + offset, -edge);
    }
    lemma_saturation(affine_value(v, params.scale_bits, params.offset_bits));
}

/// Rounding to the nearest integer keeps the order of its arguments.
pub proof fn lemma_round_half_away_monotone(a: int, b: int, d: int)
    requires
        a <= b,
        d > 0,
    ensures
        round_half_away(a, d) <= round_half_away(b, d),
{
    if a >= 0 {
        lemma_div_is_ordered(2 * a + d, 2 * b + d, 2 * d);
    } else if b < 0 {
        lemma_div_is_ordered(2 * (-b) + d, 2 * (-a) + d, 2 * d);
    } else {
        lemma_div_pos_is_pos(2 * (-a) + d, 2 * d);
        lemma_div_pos_is_pos(2 * b + d, 2 * d);
    }
}

/// With a scale of zero or more, a larger input byte never gives a smaller
/// output byte.
pub proof fn lemma_table_monotone(params: TransformParams, v: int, w: int)
    requires
        scaled_value(params.scale_bits) >= 0,
        0 <= v <= w < 256,
    ensures
        table_of(params)[v] <= table_of(params)[w],
{
    let scale = scaled_value(params.scale_bits);
    let offset = scaled_value(params.offset_bits);
    assert(v * scale <= w * scale) by (nonlinear_arith)
        requires
            v <= w,
            scale >= 0,
    ;
    lemma_rne_monotone(v * scale, w * scale);
    lemma_rne_monotone(rne(v * scale) + offset, rne(w * scale) + offset);
    lemma_pow2_pos(1074);
    lemma_round_half_away_monotone(
        affine_value(v, params.scale_bits, params.offset_bits),
        affine_value(w, params.scale_bits, params.offset_bits),
        pow2(1074) as int,
    );
    lemma_saturation(affine_value(v, params.scale_bits, params.offset_bits));
    lemma_saturation(affine_value(w, params.scale_bits, params.offset_bits));
}

/// The patterns `ONE` and `ZERO` stand for the numbers one and zero.
pub proof fn lemma_one_and_zero()
    ensures
        scaled_value(ONE) == pow2(1074),
        scaled_value(ZERO) == 0,
        is_finite_bits(ONE),
        is_finite_bits(ZERO),
{
    assert((0x3ff0_0000_0000_0000u64 >> 52) & 0x7ff == 0x3ff) by (bit_vector);
    assert(0x3ff0_0000_0000_0000u64 & 0x000f_ffff_ffff_ffff == 0) by (bit_vector);
    assert((0x3ff0_0000_0000_0000u64 >> 63) == 0) by (bit_vector);
    assert((0u64 >> 52) & 0x7ff == 0) by (bit_vector);
    assert(0u64 & 0x000f_ffff_ffff_ffff == 0) by (bit_vector);
    assert((0u64 >> 63) == 0) by (bit_vector);
    lemma2_to64_rest();
    lemma_pow2_adds(52, 1022);
    assert(0nat * pow2(0) == 0);
}

/// With a scale of one and an offset of zero the table sends every byte to
/// itself.
pub proof fn lemma_identity_table(params: TransformParams, v: int)
    requires
        scaled_value(params.scale_bits) == pow2(1074),
        scaled_value(params.offset_bits) == 0,
        0 <= v < 256,
    ensures
        table_of(params)[v] == v,
{
    lemma2_to64();
    lemma2_to64_rest();
    let units = (v as nat) * pow2(1074);
    lemma_rne_fixed(v as nat, 1074);
    assert(v * scaled_value(params.scale_bits) == units);
    assert(rne(units as int) == units);
    lemma_quotient_whole(v as nat);
}

/// The transform with scale one and offset zero changes no pixel: an own
/// strategy leaves in the destination the source's pixel bytes, and the
/// flat strategy the source's whole storage.
pub proof fn lemma_identity(strategy: Strategy, src: PixelBufferView, dst: Seq<u8>)
    requires
        strategy.own(),
        dst.len() == src.data.len(),
    ensures
        forall|i: int|
            src.is_active(i) ==> strategy.output(
                table_of(TransformParams { scale_bits: ONE, offset_bits: ZERO }),
                src,
                dst,
            )[i] == src.data[i],
        map_all(table_of(TransformParams { scale_bits: ONE, offset_bits: ZERO }), src.data)
            == src.data,
{
    let params = TransformParams { scale_bits: ONE, offset_bits: ZERO };
    let table = table_of(params);
    lemma_one_and_zero();
    assert forall|v: int| 0 <= v < 256 implies #[trigger] table[v] == v by {
        lemma_identity_table(params, v);
    }
    lemma_own_output_on_pixels(strategy, table, src, dst);
    assert(map_all(table, src.data) =~= src.data);
}

/// Building twice from the same parameters gives the same answer: the same
/// error, or two tables with the same entries.
pub proof fn lemma_build_repeatable(
    params: TransformParams,
    first: Result<LookupTable, TransformError>,
    second: Result<LookupTable, TransformError>,
)
    requires
        LookupTableBuilder::built(params, first),
        LookupTableBuilder::built(params, second),
    ensures
        first.is_ok() == second.is_ok(),
        first.is_ok() ==> first.unwrap()@ == second.unwrap()@,
        first.is_err() ==> first.unwrap_err() == second.unwrap_err(),
{
}

/// Where every name occurs once, the entry at position `i` is the one that
/// its name resolves to.
pub proof fn lemma_listed_name_resolves(entries: Seq<(Seq<char>, Strategy)>, i: int)
    requires
        distinct_names(entries),
        0 <= i < entries.len(),
    ensures
        has_name(entries, names_of(entries)[i]),
        position(entries, names_of(entries)[i]) == i,
        lookup(entries, names_of(entries)[i]) == Some(entries[i].1),
{
    let name = entries[i].0;
    assert(has_name(entries, name));
    let p = position(entries, name);
    if p < i {
        assert(entries[p].0 != entries[i].0);
    } else if i < p {
        assert(entries[i].0 != entries[p].0);
    }
}

/// Registering keeps every name unique. The name just registered resolves
/// to its strategy, and every other name resolves as it did before.
pub proof fn lemma_register_then_lookup(
    entries: Seq<(Seq<char>, Strategy)>,
    name: Seq<char>,
    strategy: Strategy,
    other: Seq<char>,
)
    requires
        distinct_names(entries),
    ensures
        distinct_names(registered(entries, name, strategy)),
        lookup(registered(entries, name, strategy), name) == Some(strategy),
        other != name ==> lookup(registered(entries, name, strategy), other) == lookup(
            entries,
            other,
        ),
        names_of(registered(entries, name, strategy)) == if has_name(entries, name) {
            names_of(entries)
        } else {
            names_of(entries).push(name)
        },
{
    let after = registered(entries, name, strategy);
    let at = if has_name(entries, name) {
        position(entries, name)
    } else {
        entries.len() as int
    };
    assert(after[at] == (name, strategy));
    assert forall|i: int| 0 <= i < after.len() && i != at implies after[i] == entries[i]
        && entries[i].0 != name by {
        if has_name(entries, name) {
            if i < at {
                assert(entries[i].0 != entries[at].0);
            } else {
                assert(entries[at].0 != entries[i].0);
            }
        } else {
            assert(entries[i].0 != name);
        }
    }
    assert(distinct_names(after)) by {
        assert forall|i: int, j: int| 0 <= i < j < after.len() implies (#[trigger] after[i]).0 != (
        #[trigger] after[j]).0 by {
            if i != at && j != at {
                assert(entries[i].0 != entries[j].0);
            }
        }
    }
    lemma_listed_name_resolves(after, at);
    if other != name {
        if has_name(entries, other) {
            let q = position(entries, other);
            assert(q != at);
            assert(after[q] == entries[q]);
            lemma_listed_name_resolves(after, q);
        } else {
            if has_name(after, other) {
                let q = position(after, other);
                assert(q != at);
                assert(entries[q].0 == other);
            }
        }
    }
    assert(names_of(after) =~= if has_name(entries, name) {
        names_of(entries)
    } else {
        names_of(entries).push(name)
    });
}

} // verus!
