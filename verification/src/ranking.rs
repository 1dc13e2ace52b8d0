use vstd::arithmetic::power2::pow2;
use vstd::prelude::*;

verus! {

/// The standings: bikes ordered from the one farthest along the track to the one
/// least far along.
pub struct Leaderboard(pub Vec<u64>);

/// A bike and the IEEE-754 bit pattern of its distance along the track.
#[derive(Clone, Copy, PartialEq, Eq, Structural, Debug)]
pub struct BikeDistance {
    pub bike: u64,
    pub distance_bits: u32,
}

/// The exponent field of a single-precision bit pattern.
pub open spec fn exponent_field(bits: u32) -> int {
    (bits as int / 0x80_0000) % 0x100
}

/// The fraction field of a single-precision bit pattern.
pub open spec fn fraction_field(bits: u32) -> int {
    bits as int % 0x80_0000
}

/// Whether a single-precision bit pattern encodes NaN.
pub open spec fn is_nan_bits(bits: u32) -> bool {
    exponent_field(bits) == 0xFF && fraction_field(bits) != 0
}

/// The position of a non-NaN single-precision value in numeric order, as an
/// unsigned integer: negative values (sign bit set) come first, the more
/// negative the earlier; both zeros share one key; positive values follow in
/// the order of their bit patterns. NaN has no key.
pub open spec fn order_key(bits: u32) -> Option<u32> {
    if is_nan_bits(bits) {
        None
    } else if bits == 0x8000_0000u32 {
        Some(0x8000_0000u32)
    } else if bits > 0x8000_0000u32 {
        Some((0xFFFF_FFFFu32 - bits) as u32)
    } else {
        Some((bits + 0x8000_0000u32) as u32)
    }
}

/// The order key of a distance given by its bit pattern (see [`order_key`]):
/// comparing keys compares the distances, with `-0.0` equal to `0.0`; a NaN
/// distance has none.
pub fn distance_order_key(bits: u32) -> (key: Option<u32>)
    ensures
        key == order_key(bits),
{
    let exponent = (bits / 0x80_0000) % 0x100;
    let fraction = bits % 0x80_0000;
    if exponent == 0xFF && fraction != 0 {
        None
    } else if bits == 0x8000_0000u32 {
        Some(0x8000_0000u32)
    } else if bits > 0x8000_0000u32 {
        Some(0xFFFF_FFFFu32 - bits)
    } else {
        Some(bits + 0x8000_0000u32)
    }
}

/// `order` lists every position of `keys` once, greatest key first, positions
/// with equal keys in their original order.
pub open spec fn is_ranking(keys: Seq<u32>, order: Seq<int>) -> bool {
    &&& order.len() == keys.len()
    &&& forall|k: int| 0 <= k < order.len() ==> 0 <= #[trigger] order[k] < keys.len()
    &&& forall|k: int, l: int|
        0 <= k < l < order.len() ==> #[trigger] order[k] != #[trigger] order[l]
    &&& forall|k: int, l: int|
        0 <= k < l < order.len() ==> ranks_before(keys, #[trigger] order[k], #[trigger] order[l])
}

/// Position `a` comes before position `b`: its key is greater, or the keys are
/// equal and `a` comes first.
pub open spec fn ranks_before(keys: Seq<u32>, a: int, b: int) -> bool {
    keys[a] > keys[b] || (keys[a] == keys[b] && a < b)
}

/// The key of a distance, where it has one.
pub open spec fn key_or_zero(bits: u32) -> u32 {
    match order_key(bits) {
        Some(k) => k,
        None => 0,
    }
}

pub open spec fn distance_keys(distances: Seq<BikeDistance>) -> Seq<u32> {
    distances.map_values(|d: BikeDistance| key_or_zero(d.distance_bits))
}

/// Whether some distance is NaN.
pub open spec fn has_nan(distances: Seq<BikeDistance>) -> bool {
    exists|i: int| 0 <= i < distances.len() && is_nan_bits(#[trigger] distances[i].distance_bits)
}

/// The bikes at the positions `order`, in that order.
pub open spec fn bikes_in_order(distances: Seq<BikeDistance>, order: Seq<int>) -> Seq<u64> {
    order.map_values(|i: int| distances[i].bike)
}

proof fn lemma_ranking_covers(keys: Seq<u32>, order: Seq<int>)
    requires
        is_ranking(keys, order),
    ensures
        forall|x: int| 0 <= x < keys.len() ==> #[trigger] order.contains(x),
{
    let n = keys.len() as int;
    assert(order.no_duplicates()) by {
        assert forall|i: int, j: int| 0 <= i < order.len() && 0 <= j < order.len() && i != j implies order[i]
            != order[j] by {
            if i < j {
                assert(order[i] != order[j]);
            } else {
                assert(order[j] != order[i]);
            }
        }
    }
    order.unique_seq_to_set();
    vstd::set_lib::lemma_int_range(0, n);
    let range = vstd::set_lib::set_int_range(0, n);
    assert(order.to_set().subset_of(range)) by {
        assert forall|x: int| order.to_set().contains(x) implies range.contains(x) by {
            assert(order.contains(x));
            let k = choose|k: int| 0 <= k < order.len() && order[k] == x;
            assert(0 <= order[k] < n);
        }
    }
    vstd::set_lib::lemma_set_subset_finite(range, order.to_set());
    vstd::set_lib::lemma_subset_equality(order.to_set(), range);
    assert forall|x: int| 0 <= x < keys.len() implies #[trigger] order.contains(x) by {
        assert(range.contains(x));
        assert(order.to_set().contains(x));
    }
}

proof fn lemma_rankings_agree_upto(keys: Seq<u32>, o1: Seq<int>, o2: Seq<int>, k: int)
    requires
        is_ranking(keys, o1),
        is_ranking(keys, o2),
        0 <= k <= keys.len(),
    ensures
        forall|m: int| 0 <= m < k ==> #[trigger] o1[m] == o2[m],
    decreases k,
{
    if k > 0 {
        lemma_rankings_agree_upto(keys, o1, o2, k - 1);
        let a = o1[k - 1];
        let b = o2[k - 1];
        if a != b {
            lemma_ranking_covers(keys, o1);
            lemma_ranking_covers(keys, o2);
            assert(o1.contains(b));
            let p = choose|p: int| 0 <= p < o1.len() && o1[p] == b;
            if p < k - 1 {
                assert(o2[p] == b);
                assert(o2[p] != o2[k - 1]);
            }
            assert(p > k - 1);
            assert(ranks_before(keys, o1[k - 1], o1[p]));
            assert(o2.contains(a));
            let q = choose|q: int| 0 <= q < o2.len() && o2[q] == a;
            if q < k - 1 {
                assert(o1[q] == a);
                assert(o1[q] != o1[k - 1]);
            }
            assert(q > k - 1);
            assert(ranks_before(keys, o2[k - 1], o2[q]));
            assert(false);
        }
    }
}

/// The standings are determined by the distances: two rankings of the same keys
/// are the same.
pub proof fn lemma_ranking_unique(keys: Seq<u32>, first: Seq<int>, second: Seq<int>)
    requires
        is_ranking(keys, first),
        is_ranking(keys, second),
    ensures
        first == second,
{
    lemma_rankings_agree_upto(keys, first, second, keys.len() as int);
    assert(first =~= second);
}

/// Sorts the positions `0..keys.len()` into a ranking of `keys`.
fn rank_positions(keys: &Vec<u32>) -> (order: Vec<usize>)
    ensures
        is_ranking(keys@, order@.map_values(|p: usize| p as int)),
{
    let mut order: Vec<usize> = Vec::new();
    let mut i: usize = 0;
    while i < keys.len()
        invariant
            i <= keys@.len(),
            order@.len() == i,
            forall|k: int| 0 <= k < order@.len() ==> #[trigger] order@[k] < i,
            forall|k: int, l: int|
                0 <= k < l < order@.len() ==> #[trigger] order@[k] != #[trigger] order@[l],
            forall|k: int, l: int|
                0 <= k < l < order@.len() ==> ranks_before(
                    keys@,
                    #[trigger] order@[k] as int,
                    #[trigger] order@[l] as int,
                ),
        decreases keys@.len() - i,
    {
        let key = keys[i];
        let mut p: usize = 0;
        while p < order.len() && keys[order[p]] >= key
            invariant
                p <= order@.len(),
                forall|k: int| 0 <= k < order@.len() ==> #[trigger] order@[k] < i,
                i < keys@.len(),
                key == keys@[i as int],
                forall|k: int| 0 <= k < p ==> keys@[#[trigger] order@[k] as int] >= key,
            decreases order@.len() - p,
        {
            p += 1;
        }
        let ghost old_order = order@;
        order.insert(p, i);
        assert(order@ == old_order.insert(p as int, i));
        assert forall|k: int| 0 <= k < order@.len() implies #[trigger] order@[k] < i + 1 by {
            if k > p {
                assert(order@[k] == old_order[k - 1]);
            }
        }
        assert forall|k: int, l: int| 0 <= k < l < order@.len() implies #[trigger] order@[k]
            != #[trigger] order@[l] by {
            if k != p && l != p {
                let kk = if k < p { k } else { k - 1 };
                let ll = if l < p { l } else { l - 1 };
                assert(order@[k] == old_order[kk]);
                assert(order@[l] == old_order[ll]);
            } else if k == p {
                assert(order@[l] == old_order[l - 1]);
            } else {
                assert(order@[k] == old_order[k]);
            }
        }
        assert forall|k: int, l: int| 0 <= k < l < order@.len() implies ranks_before(
            keys@,
            #[trigger] order@[k] as int,
            #[trigger] order@[l] as int,
        ) by {
            if k != p && l != p {
                let kk = if k < p { k } else { k - 1 };
                let ll = if l < p { l } else { l - 1 };
                assert(order@[k] == old_order[kk]);
                assert(order@[l] == old_order[ll]);
                assert(ranks_before(keys@, old_order[kk] as int, old_order[ll] as int));
            } else if k == p {
                assert(order@[l] == old_order[l - 1]);
                assert(p < old_order.len());
                assert(keys@[old_order[p as int] as int] < key);
                if l - 1 > p {
                    assert(ranks_before(keys@, old_order[p as int] as int, old_order[l - 1] as int));
                }
            } else {
                assert(order@[k] == old_order[k]);
                assert(keys@[old_order[k] as int] >= key);
            }
        }
        i += 1;
    }
    let ghost ord = order@.map_values(|p: usize| p as int);
    assert forall|k: int, l: int| 0 <= k < l < ord.len() implies ranks_before(
        keys@,
        #[trigger] ord[k],
        #[trigger] ord[l],
    ) by {
        assert(ranks_before(keys@, order@[k] as int, order@[l] as int));
    }
    assert forall|k: int, l: int| 0 <= k < l < ord.len() implies #[trigger] ord[k]
        != #[trigger] ord[l] by {
        assert(order@[k] != order@[l]);
    }
    assert forall|k: int| 0 <= k < ord.len() implies 0 <= #[trigger] ord[k] < keys@.len() by {
        assert(order@[k] < keys@.len());
    }
    order
}

/// The standings by distance along the track, farthest first; bikes at equal
/// distances keep their order in `distances`. Comparing a NaN distance is an
/// error, so with two or more bikes any NaN distance gives `None`; a single bike
/// is ranked whatever its distance.
pub fn ranking_system(distances: &Vec<BikeDistance>) -> (board: Option<Leaderboard>)
    ensures
        board is None <==> (distances@.len() >= 2 && has_nan(distances@)),
        board matches Some(b) ==> exists|order: Seq<int>|
            is_ranking(distance_keys(distances@), order) && b.0@ == bikes_in_order(
                distances@,
                order,
            ),
{
    let n = distances.len();
    let mut keys: Vec<u32> = Vec::new();
    let mut i: usize = 0;
    while i < n
        invariant
            n == distances@.len(),
            i <= n,
            keys@ == distance_keys(distances@).take(i as int),
            n >= 2 ==> forall|j: int| 0 <= j < i ==> !is_nan_bits(
                #[trigger] distances@[j].distance_bits,
            ),
        decreases n - i,
    {
        let k = distance_order_key(distances[i].distance_bits);
        match k {
            Some(key) => {
                keys.push(key);
            },
            None => {
                if n >= 2 {
                    assert(is_nan_bits(distances@[i as int].distance_bits));
                    return None;
                }
                keys.push(0);
            },
        }
        assert(distance_keys(distances@).take(i + 1) =~= distance_keys(distances@).take(
            i as int,
        ).push(keys@[i as int]));
        i += 1;
    }
    assert(distance_keys(distances@).take(i as int) =~= distance_keys(distances@));
    let order = rank_positions(&keys);
    let ghost ord = order@.map_values(|p: usize| p as int);
    let mut bikes: Vec<u64> = Vec::new();
    let mut j: usize = 0;
    while j < order.len()
        invariant
            j <= order@.len(),
            order@.len() == n,
            n == distances@.len(),
            keys@ == distance_keys(distances@),
            ord == order@.map_values(|p: usize| p as int),
            is_ranking(keys@, ord),
            bikes@ == bikes_in_order(distances@, ord.take(j as int)),
        decreases order@.len() - j,
    {
        assert(0 <= ord[j as int] < n);
        bikes.push(distances[order[j]].bike);
        assert(bikes_in_order(distances@, ord.take(j + 1)) =~= bikes_in_order(
            distances@,
            ord.take(j as int),
        ).push(distances@[ord[j as int]].bike));
        j += 1;
    }
    assert(ord.take(j as int) =~= ord);
    Some(Leaderboard(bikes))
}

// ---------------------------------------------------------------------------
// The numeric order of single-precision values

/// The sign bit of a single-precision bit pattern is set.
pub open spec fn is_negative_bits(bits: u32) -> bool {
    bits >= 0x8000_0000u32
}

/// The bit pattern with the sign bit cleared: the pattern of the absolute value.
pub open spec fn magnitude_bits(bits: u32) -> int {
    if is_negative_bits(bits) {
        bits - 0x8000_0000
    } else {
        bits as int
    }
}

/// The pattern of positive infinity, the greatest non-NaN pattern with the sign
/// bit clear.
pub open spec fn infinity_bits() -> int {
    0x7F80_0000
}

/// The value of a finite non-negative single-precision pattern `m`, times 2^149
/// (which makes every such value an integer): the fraction alone for subnormal
/// numbers, otherwise the fraction with its implicit leading one, scaled by the
/// exponent.
pub open spec fn scaled_magnitude(m: int) -> int {
    let e = m / 0x80_0000;
    let f = m % 0x80_0000;
    if e == 0 {
        f
    } else {
        (0x80_0000 + f) * pow2((e - 1) as nat)
    }
}

/// The non-negative value with pattern `m1` is smaller than the one with pattern
/// `m2` (infinity being greater than every finite value).
pub open spec fn magnitude_less(m1: int, m2: int) -> bool {
    m1 != infinity_bits() && (m2 == infinity_bits() || scaled_magnitude(m1) < scaled_magnitude(
        m2,
    ))
}

/// The single-precision value with pattern `a` is smaller than the one with
/// pattern `b`, as `f32` compares them: `-0.0` and `0.0` are equal, every negative
/// value is below every non-negative one, and among negative values the one of
/// greater absolute value is smaller.
pub open spec fn float_less(a: u32, b: u32) -> bool {
    let ma = magnitude_bits(a);
    let mb = magnitude_bits(b);
    if ma == 0 && mb == 0 {
        false
    } else if is_negative_bits(a) && !is_negative_bits(b) {
        true
    } else if !is_negative_bits(a) && is_negative_bits(b) {
        false
    } else if !is_negative_bits(a) {
        magnitude_less(ma, mb)
    } else {
        magnitude_less(mb, ma)
    }
}

/// Exactly the patterns that lie above infinity's once the sign bit is cleared
/// are NaN, and exactly those have no order key.
pub proof fn lemma_not_nan_magnitude(bits: u32)
    ensures
        order_key(bits) is None <==> magnitude_bits(bits) > infinity_bits(),
        !is_nan_bits(bits) <==> magnitude_bits(bits) <= infinity_bits(),
        0 <= magnitude_bits(bits) < 0x8000_0000,
{
    let m = magnitude_bits(bits);
    if is_negative_bits(bits) {
        assert(bits as int / 0x80_0000 == m / 0x80_0000 + 0x100);
        assert(bits as int % 0x80_0000 == m % 0x80_0000);
    }
    assert(exponent_field(bits) == m / 0x80_0000);
    assert(fraction_field(bits) == m % 0x80_0000);
}

proof fn lemma_magnitude_strict(m1: int, m2: int)
    requires
        0 <= m1 < m2 <= infinity_bits(),
    ensures
        magnitude_less(m1, m2),
{
    if m2 != infinity_bits() {
        let e1 = m1 / 0x80_0000;
        let e2 = m2 / 0x80_0000;
        let f1 = m1 % 0x80_0000;
        let f2 = m2 % 0x80_0000;
        assert(e1 <= e2);
        vstd::arithmetic::power2::lemma2_to64();
        if e1 == e2 {
            assert(f1 < f2);
            if e1 > 0 {
                let p = pow2((e1 - 1) as nat);
                vstd::arithmetic::power2::lemma_pow2_pos((e1 - 1) as nat);
                assert((0x80_0000 + f1) * p < (0x80_0000 + f2) * p) by (nonlinear_arith)
                    requires
                        f1 < f2,
                        p > 0,
                ;
            }
        } else {
            let p2 = pow2((e2 - 1) as nat);
            let q1 = pow2(e1 as nat);
            vstd::arithmetic::power2::lemma_pow2_pos((e2 - 1) as nat);
            vstd::arithmetic::power2::lemma_pow2_pos(e1 as nat);
            if e1 < e2 - 1 {
                vstd::arithmetic::power2::lemma_pow2_strictly_increases(e1 as nat, (e2 - 1) as nat);
            }
            assert(q1 <= p2);
            // the smaller value stays below 2^23 * 2^e1
            if e1 == 0 {
                assert(q1 == 1);
                assert(scaled_magnitude(m1) < 0x80_0000 * q1);
            } else {
                let p1 = pow2((e1 - 1) as nat);
                vstd::arithmetic::power2::lemma_pow2_unfold(e1 as nat);
                vstd::arithmetic::power2::lemma_pow2_pos((e1 - 1) as nat);
                assert((0x80_0000 + f1) * p1 < 0x80_0000 * q1) by (nonlinear_arith)
                    requires
                        f1 < 0x80_0000,
                        p1 > 0,
                        q1 == 2 * p1,
                ;
            }
            // the greater value reaches at least 2^23 * 2^(e2 - 1)
            assert(0x80_0000 * q1 <= (0x80_0000 + f2) * p2) by (nonlinear_arith)
                requires
                    q1 <= p2,
                    f2 >= 0,
                    p2 > 0,
            ;
        }
    }
}

proof fn lemma_key_shape(bits: u32)
    requires
        !is_nan_bits(bits),
    ensures
        !is_negative_bits(bits) ==> key_or_zero(bits) == magnitude_bits(bits) + 0x8000_0000,
        is_negative_bits(bits) && magnitude_bits(bits) == 0 ==> key_or_zero(bits) == 0x8000_0000,
        is_negative_bits(bits) && magnitude_bits(bits) > 0 ==> key_or_zero(bits) == 0x7FFF_FFFF
            - magnitude_bits(bits),
{
}

proof fn lemma_key_less_is_float_less(a: u32, b: u32)
    requires
        !is_nan_bits(a),
        !is_nan_bits(b),
    ensures
        key_or_zero(a) < key_or_zero(b) <==> float_less(a, b),
{
    lemma_not_nan_magnitude(a);
    lemma_not_nan_magnitude(b);
    lemma_key_shape(a);
    lemma_key_shape(b);
    let ma = magnitude_bits(a);
    let mb = magnitude_bits(b);
    if ma < mb {
        lemma_magnitude_strict(ma, mb);
    } else if mb < ma {
        lemma_magnitude_strict(mb, ma);
    }
}

/// The order keys order distances exactly as `f32` comparison does: for any two
/// non-NaN bit patterns, the first key is smaller exactly when the first value is
/// smaller, and the keys are equal exactly when the values compare equal (so
/// `-0.0` and `0.0` share a key).
pub proof fn lemma_order_key_follows_float_order(a: u32, b: u32)
    requires
        !is_nan_bits(a),
        !is_nan_bits(b),
    ensures
        order_key(a) is Some && order_key(b) is Some,
        key_or_zero(a) < key_or_zero(b) <==> float_less(a, b),
        key_or_zero(a) == key_or_zero(b) <==> (!float_less(a, b) && !float_less(b, a)),
{
    lemma_key_less_is_float_less(a, b);
    lemma_key_less_is_float_less(b, a);
}

/// In a ranking of NaN-free distances, no bike is behind a bike ranked after it:
/// for positions `k < l`, the distance at `k` is not less than the one at `l`, and
/// where the two distances compare equal the bike listed first in `distances`
/// comes first.
pub proof fn lemma_ranking_farthest_first(distances: Seq<BikeDistance>, order: Seq<int>)
    requires
        !has_nan(distances),
        is_ranking(distance_keys(distances), order),
    ensures
        forall|k: int, l: int|
            0 <= k < l < order.len() ==> {
                let a = distances[#[trigger] order[k]].distance_bits;
                let b = distances[#[trigger] order[l]].distance_bits;
                &&& !float_less(a, b)
                &&& (!float_less(b, a) ==> order[k] < order[l])
            },
{
    let keys = distance_keys(distances);
    assert forall|k: int, l: int| 0 <= k < l < order.len() implies {
        let a = distances[#[trigger] order[k]].distance_bits;
        let b = distances[#[trigger] order[l]].distance_bits;
        &&& !float_less(a, b)
        &&& (!float_less(b, a) ==> order[k] < order[l])
    } by {
        let i = order[k];
        let j = order[l];
        assert(ranks_before(keys, i, j));
        assert(!is_nan_bits(distances[i].distance_bits));
        assert(!is_nan_bits(distances[j].distance_bits));
        lemma_order_key_follows_float_order(distances[i].distance_bits, distances[j].distance_bits);
        assert(keys[i] == key_or_zero(distances[i].distance_bits));
        assert(keys[j] == key_or_zero(distances[j].distance_bits));
    }
}

} // verus!
