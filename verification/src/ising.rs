use vstd::prelude::*;
use vstd::arithmetic::div_mod::{
    lemma_fundamental_div_mod_converse,
    lemma_div_denominator,
    lemma_mod_breakdown,
    lemma_mod_multiples_vanish,
    lemma_div_multiples_vanish_fancy,
    lemma_mod_pos_bound,
    lemma_fundamental_div_mod,
};
use vstd::arithmetic::mul::{lemma_mul_strictly_positive, lemma_mul_nonnegative};

verus! {

/// The product of the entries of `s`.
pub open spec fn product(s: Seq<usize>) -> int
    decreases s.len(),
{
    if s.len() == 0 {
        1
    } else {
        product(s.drop_last()) * s.last()
    }
}

/// Every running product of `s`, taken from the front, fits in a `usize`.
pub open spec fn prefix_products_fit(s: Seq<usize>) -> bool {
    forall|i: int| 0 <= i <= s.len() ==> #[trigger] product(s.take(i)) <= usize::MAX
}

/// Every side of the lattice has at least one site.
pub open spec fn all_positive(s: Seq<usize>) -> bool {
    forall|i: int| 0 <= i < s.len() ==> #[trigger] s[i] > 0
}

/// The number of sites one step of coordinate `i` spans: the product of the
/// sides after side `i`.
pub open spec fn place_value(sizes: Seq<usize>, i: int) -> int {
    product(sizes.subrange(i + 1, sizes.len() as int))
}

/// Coordinate `i` of `node`: its `i`-th digit in the mixed radix `sizes`,
/// most significant first, the last side counting single sites.
pub open spec fn digit(node: int, sizes: Seq<usize>, i: int) -> int {
    (node / place_value(sizes, i)) % (sizes[i] as int)
}

/// The coordinates of `node`, one per side of the lattice.
pub open spec fn coords_of(node: int, sizes: Seq<usize>) -> Seq<usize> {
    Seq::new(sizes.len(), |i: int| digit(node, sizes, i) as usize)
}

/// The site that the coordinates `coord` along the first `m` sides give, read
/// in the mixed radix of those sides, most significant first: `coord[m - 1]`
/// counts single sites, `coord[m - 2]` rows of `sizes[m - 1]` sites, and so on.
pub open spec fn coord_value(coord: Seq<usize>, sizes: Seq<usize>, m: int) -> int
    decreases m,
{
    if m <= 0 {
        0
    } else {
        coord_value(coord, sizes, m - 1) * sizes[m - 1] + coord[m - 1]
    }
}

/// Each of the coordinates lies within its side.
pub open spec fn valid_coords(coord: Seq<usize>, sizes: Seq<usize>) -> bool {
    &&& coord.len() == sizes.len()
    &&& forall|j: int| 0 <= j < coord.len() ==> #[trigger] coord[j] < sizes[j]
}

/// The coordinates of `node` moved one step along side `i`, upwards or
/// downwards, wrapping around at the ends.
pub open spec fn stepped_coords(node: int, sizes: Seq<usize>, i: int, up: bool) -> Seq<usize> {
    let c = coords_of(node, sizes);
    let s = sizes[i] as int;
    c.update(i, (if up { (c[i] + 1) % s } else { (c[i] + s - 1) % s }) as usize)
}

/// Neighbour `slot` of `node`: slot `2i` is the next site along side `i` and
/// slot `2i + 1` the previous one; along a side of length one both are
/// `node` itself.
pub open spec fn neighbour(node: int, sizes: Seq<usize>, slot: int) -> int {
    let i = slot / 2;
    if sizes[i] > 1 {
        coord_value(stepped_coords(node, sizes, i, slot % 2 == 0), sizes, sizes.len() as int)
    } else {
        node
    }
}

/// The slot of the bond in the opposite direction: slots `2i` and `2i + 1`
/// pair up.
pub open spec fn partner_slot(slot: int) -> int {
    if slot % 2 == 0 {
        slot + 1
    } else {
        slot - 1
    }
}

/// An earlier slot of `node` already points at the site slot `j` points at.
pub open spec fn repeats_earlier(node: int, sizes: Seq<usize>, j: int) -> bool {
    exists|j2: int| 0 <= j2 < j && #[trigger] neighbour(node, sizes, j2) == neighbour(node, sizes, j)
}

/// The bond that slot `j` of `node` carries, and whether it keeps the weight
/// given for that slot: a bond to the site itself, or to a site no earlier
/// slot reaches, keeps it; a second bond to the same site becomes a loop at
/// `node` without weight.
pub open spec fn bond_target(node: int, sizes: Seq<usize>, j: int) -> (usize, bool) {
    let nb = neighbour(node, sizes, j);
    if nb == node || !repeats_earlier(node, sizes, j) {
        (nb as usize, true)
    } else {
        (node as usize, false)
    }
}

/// For slots `0..j` of `node` that lead to a higher site, the weight-list
/// positions of the bond from both of its ends: slot `j'` of `node`, and
/// the partner slot of the neighbour, with `2 * dim` positions per site.
pub open spec fn row_weight_slots(node: int, sizes: Seq<usize>, dim: int, j: int) -> Seq<(usize, usize)>
    decreases j,
{
    if j <= 0 {
        Seq::empty()
    } else {
        let prev = row_weight_slots(node, sizes, dim, j - 1);
        let nb = neighbour(node, sizes, j - 1);
        if nb > node {
            prev.push(
                ((2 * dim * node + (j - 1)) as usize, (2 * dim * nb + partner_slot(j - 1)) as usize),
            )
        } else {
            prev
        }
    }
}

/// The weight-list positions of all bonds from sites `0..m` to higher sites,
/// site by site, in slot order.
pub open spec fn weight_slots_upto(sizes: Seq<usize>, dim: int, m: int) -> Seq<(usize, usize)>
    decreases m,
{
    if m <= 0 {
        Seq::empty()
    } else {
        weight_slots_upto(sizes, dim, m - 1) + row_weight_slots(
            m - 1,
            sizes,
            dim,
            2 * sizes.len() as int,
        )
    }
}

proof fn lemma_take_step(s: Seq<usize>, i: int)
    requires
        0 <= i < s.len(),
    ensures
        product(s.take(i + 1)) == product(s.take(i)) * s[i],
{
    assert(s.take(i + 1).drop_last() =~= s.take(i));
}

proof fn lemma_product_positive(s: Seq<usize>)
    requires
        all_positive(s),
    ensures
        product(s) > 0,
    decreases s.len(),
{
    if s.len() > 0 {
        lemma_product_positive(s.drop_last());
        lemma_mul_strictly_positive(product(s.drop_last()), s.last() as int);
    }
}

proof fn lemma_product_nonneg(s: Seq<usize>)
    ensures
        product(s) >= 0,
    decreases s.len(),
{
    if s.len() > 0 {
        lemma_product_nonneg(s.drop_last());
        lemma_mul_nonnegative(product(s.drop_last()), s.last() as int);
    }
}

proof fn lemma_coord_value_nonneg(coord: Seq<usize>, sizes: Seq<usize>, m: int)
    ensures
        coord_value(coord, sizes, m) >= 0,
    decreases m,
{
    if m > 0 {
        lemma_coord_value_nonneg(coord, sizes, m - 1);
        lemma_mul_nonnegative(coord_value(coord, sizes, m - 1), sizes[m - 1] as int);
    }
}

/// The product of sides `i..b` is side `i` times the product of sides `i+1..b`.
proof fn lemma_suffix_step(s: Seq<usize>, i: int, b: int)
    requires
        0 <= i < b <= s.len(),
    ensures
        product(s.subrange(i, b)) == s[i] * product(s.subrange(i + 1, b)),
    decreases b - i,
{
    assert(s.subrange(i, b).drop_last() =~= s.subrange(i, b - 1));
    assert(s.subrange(i, b).last() == s[b - 1]);
    if b == i + 1 {
        assert(s.subrange(i, i).len() == 0);
        assert(product(s.subrange(i, i)) == 1);
        assert(s.subrange(i + 1, b).len() == 0);
        assert(product(s.subrange(i + 1, b)) == 1);
    } else {
        lemma_suffix_step(s, i, b - 1);
        assert(s.subrange(i + 1, b).drop_last() =~= s.subrange(i + 1, b - 1));
        assert(s.subrange(i + 1, b).last() == s[b - 1]);
        let x = s[i] as int;
        let y = product(s.subrange(i + 1, b - 1));
        let z = s[b - 1] as int;
        assert((x * y) * z == x * (y * z)) by (nonlinear_arith);
    }
}

proof fn lemma_suffix_positive(s: Seq<usize>, i: int, b: int)
    requires
        all_positive(s),
        0 <= i <= b <= s.len(),
    ensures
        product(s.subrange(i, b)) > 0,
{
    assert forall|k: int| 0 <= k < s.subrange(i, b).len() implies #[trigger] s.subrange(i, b)[k]
        > 0 by {
        assert(s.subrange(i, b)[k] == s[i + k]);
    }
    lemma_product_positive(s.subrange(i, b));
}

/// Coordinates within their sides give a site below the product of those sides.
proof fn lemma_coord_value_bound(coord: Seq<usize>, sizes: Seq<usize>, m: int)
    requires
        valid_coords(coord, sizes),
        0 <= m <= sizes.len(),
    ensures
        0 <= coord_value(coord, sizes, m) < product(sizes.take(m)),
    decreases m,
{
    if m == 0 {
    } else {
        lemma_coord_value_bound(coord, sizes, m - 1);
        lemma_take_step(sizes, m - 1);
        let v = coord_value(coord, sizes, m - 1);
        let p = product(sizes.take(m - 1));
        let c = coord[m - 1] as int;
        let s = sizes[m - 1] as int;
        assert(v * s + c < p * s) by (nonlinear_arith)
            requires
                0 <= v < p,
                0 <= c < s,
        ;
        lemma_mul_nonnegative(v, s);
    }
}

/// Along a lattice whose running products fit, every partial reading of
/// coordinates within their sides fits in a `usize`.
proof fn lemma_coord_values_fit(coord: Seq<usize>, sizes: Seq<usize>)
    requires
        valid_coords(coord, sizes),
        prefix_products_fit(sizes),
    ensures
        forall|t: int| 0 <= t <= sizes.len() ==> #[trigger] coord_value(coord, sizes, t) <= usize::MAX,
{
    assert forall|t: int| 0 <= t <= sizes.len() implies #[trigger] coord_value(coord, sizes, t)
        <= usize::MAX by {
        lemma_coord_value_bound(coord, sizes, t);
        assert(product(sizes.take(t)) <= usize::MAX);
    }
}

/// Reading the first `t` coordinates of a site below the product of the sides
/// gives the site divided by the product of the sides from `t` on.
proof fn lemma_coords_of_value(node: int, sizes: Seq<usize>, t: int)
    requires
        0 <= node < product(sizes),
        all_positive(sizes),
        0 <= t <= sizes.len(),
    ensures
        coord_value(coords_of(node, sizes), sizes, t) == node / product(
            sizes.subrange(t, sizes.len() as int),
        ),
    decreases t,
{
    let len = sizes.len() as int;
    let c = coords_of(node, sizes);
    if t == 0 {
        assert(sizes.subrange(0, len) =~= sizes);
        lemma_fundamental_div_mod_converse(node, product(sizes), 0, node);
    } else {
        lemma_coords_of_value(node, sizes, t - 1);
        let s = sizes[t - 1] as int;
        let p1 = product(sizes.subrange(t, len));
        lemma_suffix_step(sizes, t - 1, len);
        lemma_suffix_positive(sizes, t, len);
        lemma_div_denominator(node, p1, s);
        assert(p1 * s == s * p1) by (nonlinear_arith);
        let q = node / p1;
        assert(c[t - 1] == q % s);
        vstd::arithmetic::div_mod::lemma_fundamental_div_mod(q, s);
        assert((q / s) * s == s * (q / s)) by (nonlinear_arith);
    }
}

/// The site of coordinates within their sides, divided by the product of the
/// sides from `t` on, is the reading of its first `t` coordinates.
proof fn lemma_value_over_place(coord: Seq<usize>, sizes: Seq<usize>, t: int)
    requires
        valid_coords(coord, sizes),
        all_positive(sizes),
        0 <= t <= sizes.len(),
    ensures
        coord_value(coord, sizes, sizes.len() as int) / product(
            sizes.subrange(t, sizes.len() as int),
        ) == coord_value(coord, sizes, t),
    decreases sizes.len() - t,
{
    let len = sizes.len() as int;
    let x = coord_value(coord, sizes, len);
    lemma_coord_value_nonneg(coord, sizes, len);
    if t == len {
        assert(sizes.subrange(len, len).len() == 0);
        assert(x / 1 == x);
    } else {
        lemma_value_over_place(coord, sizes, t + 1);
        let s = sizes[t] as int;
        let p1 = product(sizes.subrange(t + 1, len));
        lemma_suffix_step(sizes, t, len);
        lemma_suffix_positive(sizes, t + 1, len);
        lemma_div_denominator(x, p1, s);
        assert(p1 * s == s * p1) by (nonlinear_arith);
        let v = coord_value(coord, sizes, t);
        assert(coord_value(coord, sizes, t + 1) == s * v + coord[t]) by (nonlinear_arith)
            requires
                coord_value(coord, sizes, t + 1) == v * s + coord[t],
        ;
        lemma_div_multiples_vanish_fancy(v, coord[t] as int, s);
    }
}

/// Coordinates within their sides are the coordinates of their own site.
pub proof fn lemma_coords_round_trip(coord: Seq<usize>, sizes: Seq<usize>)
    requires
        valid_coords(coord, sizes),
        all_positive(sizes),
    ensures
        coords_of(coord_value(coord, sizes, sizes.len() as int), sizes) == coord,
{
    let len = sizes.len() as int;
    let x = coord_value(coord, sizes, len);
    assert forall|i: int| 0 <= i < len implies coords_of(x, sizes)[i] == coord[i] by {
        lemma_value_over_place(coord, sizes, i + 1);
        let s = sizes[i] as int;
        let v = coord_value(coord, sizes, i);
        assert(coord_value(coord, sizes, i + 1) == s * v + coord[i]) by (nonlinear_arith)
            requires
                coord_value(coord, sizes, i + 1) == v * s + coord[i],
        ;
        lemma_mod_multiples_vanish(v, coord[i] as int, s);
        lemma_fundamental_div_mod_converse(coord[i] as int, s, 0, coord[i] as int);
    }
    assert(coords_of(x, sizes) =~= coord);
}

/// Each site below the product of the sides is the site of its own coordinates.
pub proof fn lemma_site_round_trip(node: int, sizes: Seq<usize>)
    requires
        all_positive(sizes),
        0 <= node < product(sizes),
    ensures
        coord_value(coords_of(node, sizes), sizes, sizes.len() as int) == node,
        valid_coords(coords_of(node, sizes), sizes),
{
    let len = sizes.len() as int;
    lemma_coords_of_value(node, sizes, len);
    assert(sizes.subrange(len, len).len() == 0);
    assert(node / 1 == node);
    lemma_coords_valid(node, sizes);
}

proof fn lemma_coords_valid(node: int, sizes: Seq<usize>)
    requires
        all_positive(sizes),
    ensures
        valid_coords(coords_of(node, sizes), sizes),
{
    assert forall|j: int| 0 <= j < sizes.len() implies #[trigger] coords_of(node, sizes)[j]
        < sizes[j] by {
        vstd::arithmetic::div_mod::lemma_mod_bound(node / place_value(sizes, j), sizes[j] as int);
    }
}

proof fn lemma_step_back(d: int, s: int)
    requires
        0 <= d < s,
        s > 1,
    ensures
        0 <= (d + 1) % s < s,
        0 <= (d + s - 1) % s < s,
        (((d + 1) % s) + s - 1) % s == d,
        (((d + s - 1) % s) + 1) % s == d,
{
    if d + 1 == s {
        lemma_fundamental_div_mod_converse(d + 1, s, 1, 0);
        lemma_fundamental_div_mod_converse(s - 1, s, 0, d);
    } else {
        lemma_fundamental_div_mod_converse(d + 1, s, 0, d + 1);
        lemma_fundamental_div_mod_converse(d + s, s, 1, d);
    }
    if d == 0 {
        lemma_fundamental_div_mod_converse(d + s - 1, s, 0, s - 1);
        lemma_fundamental_div_mod_converse(s, s, 1, 0);
    } else {
        lemma_fundamental_div_mod_converse(d + s - 1, s, 1, d - 1);
        lemma_fundamental_div_mod_converse(d, s, 0, d);
    }
}

/// Every neighbour of a site is a site, and the bonds pair up: neighbour
/// `partner_slot(slot)` of neighbour `slot` of `node` is `node` again.
pub proof fn lemma_neighbour_symmetric(sizes: Seq<usize>, node: int, slot: int)
    requires
        all_positive(sizes),
        0 <= node < product(sizes),
        0 <= slot < 2 * sizes.len(),
    ensures
        0 <= neighbour(node, sizes, slot) < product(sizes),
        neighbour(neighbour(node, sizes, slot), sizes, partner_slot(slot)) == node,
{
    let i = slot / 2;
    let ps = partner_slot(slot);
    assert(ps / 2 == i && (ps % 2 == 0) == (slot % 2 != 0));
    let len = sizes.len() as int;
    assert(sizes.take(len) =~= sizes);
    lemma_site_round_trip(node, sizes);
    if sizes[i] > 1 {
        let up = slot % 2 == 0;
        let c = coords_of(node, sizes);
        let c1 = stepped_coords(node, sizes, i, up);
        let s = sizes[i] as int;
        lemma_step_back(c[i] as int, s);
        assert(valid_coords(c1, sizes));
        let m = coord_value(c1, sizes, len);
        lemma_coord_value_bound(c1, sizes, len);
        lemma_coords_round_trip(c1, sizes);
        assert(coords_of(m, sizes) == c1);
        let c2 = stepped_coords(m, sizes, i, !up);
        assert(c2 =~= c);
    }
}

/// A positive product has no zero factor.
pub proof fn lemma_positive_product(s: Seq<usize>)
    requires
        product(s) > 0,
    ensures
        all_positive(s),
    decreases s.len(),
{
    if s.len() > 0 {
        let p = product(s.drop_last());
        let x = s.last() as int;
        lemma_product_nonneg(s.drop_last());
        assert(p > 0 && x > 0) by (nonlinear_arith)
            requires
                p * x > 0,
                p >= 0,
                x >= 0,
        ;
        lemma_positive_product(s.drop_last());
        assert forall|i: int| 0 <= i < s.len() implies #[trigger] s[i] > 0 by {
            if i < s.len() - 1 {
                assert(s[i] == s.drop_last()[i]);
            }
        }
    }
}

/// Whether every running product of `sizes` fits in a `usize`.
pub fn products_fit(sizes: &Vec<usize>) -> (r: bool)
    ensures
        r == prefix_products_fit(sizes@),
{
    let mut prod: usize = 1;
    let mut i: usize = 0;
    while i < sizes.len()
        invariant
            i <= sizes@.len(),
            prod == product(sizes@.take(i as int)),
            forall|j: int| 0 <= j <= i ==> #[trigger] product(sizes@.take(j)) <= usize::MAX,
        decreases sizes@.len() - i,
    {
        proof {
            lemma_take_step(sizes@, i as int);
        }
        match prod.checked_mul(sizes[i]) {
            None => {
                return false;
            },
            Some(v) => {
                prod = v;
            },
        }
        i = i + 1;
    }
    proof {
        assert(sizes@.take(sizes@.len() as int) =~= sizes@);
    }
    true
}

/// The weight-list positions of the bond in slot `j` of `a`, seen from `a`
/// and from its neighbour.
pub open spec fn bond_pair(sizes: Seq<usize>, dim: int, a: int, j: int) -> (usize, usize) {
    (
        (2 * dim * a + j) as usize,
        (2 * dim * neighbour(a, sizes, j) + partner_slot(j)) as usize,
    )
}

proof fn lemma_row_weight_slots(sizes: Seq<usize>, dim: int, a: int, j: int, x: (usize, usize))
    requires
        0 <= j,
    ensures
        row_weight_slots(a, sizes, dim, j).contains(x) <==> exists|jj: int|
            0 <= jj < j && a < neighbour(a, sizes, jj) && x == #[trigger] bond_pair(sizes, dim, a, jj),
    decreases j,
{
    if j > 0 {
        lemma_row_weight_slots(sizes, dim, a, j - 1, x);
        let prev = row_weight_slots(a, sizes, dim, j - 1);
        let cur = row_weight_slots(a, sizes, dim, j);
        if a < neighbour(a, sizes, j - 1) {
            let y = bond_pair(sizes, dim, a, j - 1);
            assert(cur == prev.push(y));
            if cur.contains(x) {
                let t = choose|t: int| 0 <= t < cur.len() && cur[t] == x;
                if t < prev.len() {
                    assert(prev[t] == x);
                    assert(prev.contains(x));
                }
            }
            if prev.contains(x) {
                let t = choose|t: int| 0 <= t < prev.len() && prev[t] == x;
                assert(cur[t] == x);
            }
            if x == y {
                assert(cur[prev.len() as int] == x);
            }
        } else {
            assert(cur == prev);
        }
    }
}

/// The positions written by the weight lines are exactly the bonds from a
/// site to a higher one, each seen from both of its ends: slot `j` of site
/// `a`, and the partner slot of its neighbour.
pub proof fn lemma_weight_slots_are_bonds(sizes: Seq<usize>, dim: int, m: int, x: (usize, usize))
    requires
        0 <= m,
        dim == sizes.len(),
    ensures
        weight_slots_upto(sizes, dim, m).contains(x) <==> exists|a: int, j: int|
            0 <= a < m && 0 <= j < 2 * dim && a < neighbour(a, sizes, j) && x == #[trigger] bond_pair(
                sizes,
                dim,
                a,
                j,
            ),
    decreases m,
{
    if m > 0 {
        lemma_weight_slots_are_bonds(sizes, dim, m - 1, x);
        lemma_row_weight_slots(sizes, dim, m - 1, 2 * dim, x);
        let prev = weight_slots_upto(sizes, dim, m - 1);
        let row = row_weight_slots(m - 1, sizes, dim, 2 * dim);
        let cur = weight_slots_upto(sizes, dim, m);
        assert(cur == prev + row);
        if cur.contains(x) {
            let t = choose|t: int| 0 <= t < cur.len() && cur[t] == x;
            if t < prev.len() {
                assert(prev[t] == x);
                assert(prev.contains(x));
            } else {
                assert(row[t - prev.len()] == x);
                assert(row.contains(x));
            }
        }
        if prev.contains(x) {
            let t = choose|t: int| 0 <= t < prev.len() && prev[t] == x;
            assert(cur[t] == x);
        }
        if row.contains(x) {
            let t = choose|t: int| 0 <= t < row.len() && row[t] == x;
            assert(cur[prev.len() + t] == x);
        }
    }
}

/// `pair` writes position `p`: it is one of its two positions.
pub open spec fn writes(pair: (usize, usize), p: int) -> bool {
    pair.0 as int == p || pair.1 as int == p
}

/// `x` is the weight-list pair of a bond from site `x.0 / (2 * dim)`, slot
/// `x.0 % (2 * dim)`, to a higher site.
pub open spec fn is_bond_entry(sizes: Seq<usize>, dim: int, x: (usize, usize)) -> bool {
    let a = x.0 as int / (2 * dim);
    let j = x.0 as int % (2 * dim);
    a < neighbour(a, sizes, j) && x == bond_pair(sizes, dim, a, j)
}

proof fn lemma_position_bound(dim: int, a: int, j: int, n: int)
    requires
        0 <= a < n,
        0 <= j < 2 * dim,
    ensures
        2 * dim * a <= 2 * dim * a + j < 2 * dim * n,
        2 * dim * (a + 1) <= 2 * dim * n,
{
    assert(2 * dim * a + j < 2 * dim * n && 2 * dim * (a + 1) <= 2 * dim * n) by (nonlinear_arith)
        requires
            0 <= a < n,
            0 <= j < 2 * dim,
    ;
}

proof fn lemma_row_ordered(sizes: Seq<usize>, dim: int, a: int, j: int, n: int)
    requires
        all_positive(sizes),
        dim == sizes.len(),
        n == product(sizes),
        2 * dim * n <= usize::MAX,
        0 <= a < n,
        0 <= j <= 2 * dim,
    ensures
        forall|t: int|
            0 <= t < row_weight_slots(a, sizes, dim, j).len() ==> is_bond_entry(
                sizes,
                dim,
                #[trigger] row_weight_slots(a, sizes, dim, j)[t],
            ) && 2 * dim * a <= row_weight_slots(a, sizes, dim, j)[t].0 < 2 * dim * a + j,
        forall|t1: int, t2: int|
            0 <= t1 < t2 < row_weight_slots(a, sizes, dim, j).len() ==> #[trigger] row_weight_slots(
                a,
                sizes,
                dim,
                j,
            )[t1].0 < #[trigger] row_weight_slots(a, sizes, dim, j)[t2].0,
    decreases j,
{
    if j > 0 {
        lemma_row_ordered(sizes, dim, a, j - 1, n);
        let prev = row_weight_slots(a, sizes, dim, j - 1);
        let cur = row_weight_slots(a, sizes, dim, j);
        let nb = neighbour(a, sizes, j - 1);
        if a < nb {
            let y = bond_pair(sizes, dim, a, j - 1);
            assert(cur == prev.push(y));
            lemma_position_bound(dim, a, j - 1, n);
            assert(sizes.take(sizes.len() as int) =~= sizes);
            lemma_neighbour_symmetric(sizes, a, j - 1);
            lemma_position_bound(dim, nb, partner_slot(j - 1), n);
            assert(y.0 as int == 2 * dim * a + (j - 1));
            lemma_fundamental_div_mod_converse(2 * dim * a + (j - 1), 2 * dim, a, j - 1);
            assert(2 * dim * a + (j - 1) == a * (2 * dim) + (j - 1)) by (nonlinear_arith);
            assert(is_bond_entry(sizes, dim, y));
            assert forall|t: int| 0 <= t < cur.len() implies is_bond_entry(sizes, dim, #[trigger] cur[t])
                && 2 * dim * a <= cur[t].0 < 2 * dim * a + j by {
                if t < prev.len() {
                    assert(cur[t] == prev[t]);
                }
            }
            assert forall|t1: int, t2: int| 0 <= t1 < t2 < cur.len() implies #[trigger] cur[t1].0
                < #[trigger] cur[t2].0 by {
                assert(cur[t1] == prev[t1]);
                if t2 < prev.len() {
                    assert(cur[t2] == prev[t2]);
                }
            }
        } else {
            assert(cur == prev);
        }
    }
}

proof fn lemma_upto_ordered(sizes: Seq<usize>, dim: int, m: int, n: int)
    requires
        all_positive(sizes),
        dim == sizes.len(),
        n == product(sizes),
        2 * dim * n <= usize::MAX,
        0 <= m <= n,
    ensures
        forall|t: int|
            0 <= t < weight_slots_upto(sizes, dim, m).len() ==> is_bond_entry(
                sizes,
                dim,
                #[trigger] weight_slots_upto(sizes, dim, m)[t],
            ) && weight_slots_upto(sizes, dim, m)[t].0 < 2 * dim * m,
        forall|t1: int, t2: int|
            0 <= t1 < t2 < weight_slots_upto(sizes, dim, m).len() ==> #[trigger] weight_slots_upto(
                sizes,
                dim,
                m,
            )[t1].0 < #[trigger] weight_slots_upto(sizes, dim, m)[t2].0,
    decreases m,
{
    if m > 0 {
        lemma_upto_ordered(sizes, dim, m - 1, n);
        lemma_row_ordered(sizes, dim, m - 1, 2 * dim, n);
        let prev = weight_slots_upto(sizes, dim, m - 1);
        let row = row_weight_slots(m - 1, sizes, dim, 2 * dim);
        let cur = weight_slots_upto(sizes, dim, m);
        assert(cur == prev + row);
        assert(2 * dim * (m - 1) + 2 * dim == 2 * dim * m) by (nonlinear_arith);
        assert(2 * dim * (m - 1) <= 2 * dim * m) by (nonlinear_arith)
            requires
                dim >= 0,
                m >= 1,
        ;
        assert forall|t: int| 0 <= t < cur.len() implies is_bond_entry(sizes, dim, #[trigger] cur[t])
            && cur[t].0 < 2 * dim * m by {
            if t < prev.len() {
                assert(cur[t] == prev[t]);
            } else {
                assert(cur[t] == row[t - prev.len()]);
            }
        }
        assert forall|t1: int, t2: int| 0 <= t1 < t2 < cur.len() implies #[trigger] cur[t1].0
            < #[trigger] cur[t2].0 by {
            if t2 < prev.len() {
                assert(cur[t1] == prev[t1] && cur[t2] == prev[t2]);
            } else if t1 < prev.len() {
                assert(cur[t1] == prev[t1] && cur[t2] == row[t2 - prev.len()]);
            } else {
                assert(cur[t1] == row[t1 - prev.len()] && cur[t2] == row[t2 - prev.len()]);
            }
        }
    }
}

/// Reading the weights of an Ising model stores each bond's weight exactly
/// once at each of its ends: the position of slot `i` of site `u` is written
/// by some weight line exactly when the slot leads to another site; then it
/// is written by one line only, and that line also writes the partner slot
/// of the neighbour.
pub proof fn lemma_each_bond_weight_read_once(sizes: Seq<usize>, dim: int, u: int, i: int)
    requires
        all_positive(sizes),
        dim == sizes.len(),
        2 * dim * product(sizes) <= usize::MAX,
        0 <= u < product(sizes),
        0 <= i < 2 * dim,
    ensures
        ({
            let w = weight_slots_upto(sizes, dim, product(sizes));
            let nb = neighbour(u, sizes, i);
            let p = 2 * dim * u + i;
            let q = 2 * dim * nb + partner_slot(i);
            &&& (exists|k: int| 0 <= k < w.len() && writes(#[trigger] w[k], p)) <==> nb != u
            &&& forall|k: int| 0 <= k < w.len() && writes(#[trigger] w[k], p) ==> writes(w[k], q)
            &&& forall|k1: int, k2: int|
                0 <= k1 < w.len() && 0 <= k2 < w.len() && writes(#[trigger] w[k1], p) && writes(
                    #[trigger] w[k2],
                    p,
                ) ==> k1 == k2
        }),
{
    let n = product(sizes);
    let d = 2 * dim;
    let w = weight_slots_upto(sizes, dim, n);
    let nb = neighbour(u, sizes, i);
    let p = d * u + i;
    let q = d * nb + partner_slot(i);
    let pi = partner_slot(i);
    lemma_upto_ordered(sizes, dim, n, n);
    assert(sizes.take(sizes.len() as int) =~= sizes);
    lemma_neighbour_symmetric(sizes, u, i);
    lemma_position_bound(dim, u, i, n);
    assert(0 <= pi < d);
    lemma_position_bound(dim, nb, pi, n);
    assert(p == u * d + i) by (nonlinear_arith)
        requires
            p == d * u + i,
    ;
    lemma_fundamental_div_mod_converse(p, d, u, i);
    assert(q == nb * d + pi) by (nonlinear_arith)
        requires
            q == d * nb + pi,
    ;
    lemma_fundamental_div_mod_converse(q, d, nb, pi);
    // every line that writes `p` has first position `p` or `q`, as the
    // neighbour lies above or below `u`, and writes `q` too
    assert forall|k: int| 0 <= k < w.len() && writes(#[trigger] w[k], p) implies nb != u && writes(
        w[k],
        q,
    ) && w[k].0 as int == (if u < nb {
        p
    } else {
        q
    }) by {
        let x = w[k];
        let a = x.0 as int / d;
        let j = x.0 as int % d;
        assert(is_bond_entry(sizes, dim, x));
        let b = neighbour(a, sizes, j);
        lemma_fundamental_div_mod(x.0 as int, d);
        lemma_mod_pos_bound(x.0 as int, d);
        assert(0 <= a < n) by (nonlinear_arith)
            requires
                x.0 == d * a + j,
                0 <= j < d,
                x.0 < d * n,
                0 <= x.0,
        ;
        lemma_neighbour_symmetric(sizes, a, j);
        lemma_position_bound(dim, a, j, n);
        lemma_position_bound(dim, b, partner_slot(j), n);
        if x.0 as int == p {
            assert(x.0 as int == a * d + j) by (nonlinear_arith)
                requires
                    x.0 == d * a + j,
            ;
            lemma_fundamental_div_mod_converse(x.0 as int, d, a, j);
            assert(a == u && j == i);
        } else {
            assert(x.1 as int == p);
            assert(x.1 as int == d * b + partner_slot(j));
            assert(x.1 as int == b * d + partner_slot(j)) by (nonlinear_arith)
                requires
                    x.1 == d * b + partner_slot(j),
            ;
            lemma_fundamental_div_mod_converse(x.1 as int, d, b, partner_slot(j));
            assert(b == u && partner_slot(j) == i);
            assert(j == pi);
            assert(nb == a);
        }
    }
    if nb != u {
        if u < nb {
            let x = bond_pair(sizes, dim, u, i);
            lemma_weight_slots_are_bonds(sizes, dim, n, x);
            let k = choose|k: int| 0 <= k < w.len() && w[k] == x;
            assert(writes(w[k], p));
        } else {
            assert(neighbour(nb, sizes, pi) == u);
            assert(partner_slot(pi) == i);
            let x = bond_pair(sizes, dim, nb, pi);
            assert(nb < neighbour(nb, sizes, pi));
            lemma_weight_slots_are_bonds(sizes, dim, n, x);
            let k = choose|k: int| 0 <= k < w.len() && w[k] == x;
            assert(writes(w[k], p));
        }
    }
    assert forall|k1: int, k2: int|
        0 <= k1 < w.len() && 0 <= k2 < w.len() && writes(#[trigger] w[k1], p) && writes(
            #[trigger] w[k2],
            p,
        ) implies k1 == k2 by {
        if k1 < k2 {
            assert(w[k1].0 < w[k2].0);
        } else if k2 < k1 {
            assert(w[k2].0 < w[k1].0);
        }
    }
}

/// No side of the lattice has length two.
pub open spec fn no_side_of_two(sizes: Seq<usize>) -> bool {
    forall|d: int| 0 <= d < sizes.len() ==> #[trigger] sizes[d] != 2
}

proof fn lemma_steps_differ(c: int, s: int)
    requires
        0 <= c < s,
        s >= 3,
    ensures
        (c + 1) % s != c,
        (c + s - 1) % s != c,
        (c + 1) % s != (c + s - 1) % s,
{
    if c + 1 == s {
        lemma_fundamental_div_mod_converse(c + 1, s, 1, 0);
    } else {
        lemma_fundamental_div_mod_converse(c + 1, s, 0, c + 1);
    }
    if c == 0 {
        lemma_fundamental_div_mod_converse(c + s - 1, s, 0, s - 1);
    } else {
        lemma_fundamental_div_mod_converse(c + s - 1, s, 1, c - 1);
    }
}

/// Without sides of length two, the slots of a site that lead to other sites
/// lead to different sites.
proof fn lemma_neighbours_distinct(sizes: Seq<usize>, u: int, i: int, j: int)
    requires
        all_positive(sizes),
        no_side_of_two(sizes),
        0 <= u < product(sizes),
        0 <= j < 2 * sizes.len(),
        0 <= i < 2 * sizes.len(),
        j != i,
        neighbour(u, sizes, i) != u,
    ensures
        neighbour(u, sizes, j) != neighbour(u, sizes, i),
{
    let len = sizes.len() as int;
    let a = i / 2;
    let b = j / 2;
    let c = coords_of(u, sizes);
    lemma_site_round_trip(u, sizes);
    if sizes[b] > 1 && neighbour(u, sizes, j) == neighbour(u, sizes, i) {
        let ci = stepped_coords(u, sizes, a, i % 2 == 0);
        let cj = stepped_coords(u, sizes, b, j % 2 == 0);
        lemma_step_back(c[a] as int, sizes[a] as int);
        lemma_step_back(c[b] as int, sizes[b] as int);
        assert(valid_coords(ci, sizes));
        assert(valid_coords(cj, sizes));
        lemma_coords_round_trip(ci, sizes);
        lemma_coords_round_trip(cj, sizes);
        assert(ci == cj);
        lemma_steps_differ(c[a] as int, sizes[a] as int);
        if a != b {
            assert(ci[a] != c[a]);
            assert(cj[a] == c[a]);
        } else {
            assert((i % 2 == 0) != (j % 2 == 0));
            assert(ci[a] != cj[a]);
        }
    }
}

/// Without sides of length two, each bond between distinct sites keeps its
/// weight at both ends: slot `i` of `u` carries it to the neighbour, and the
/// partner slot of the neighbour carries it back to `u`.
pub proof fn lemma_bond_kept_at_both_ends(sizes: Seq<usize>, u: int, i: int)
    requires
        all_positive(sizes),
        no_side_of_two(sizes),
        0 <= u < product(sizes),
        0 <= i < 2 * sizes.len(),
        neighbour(u, sizes, i) != u,
    ensures
        bond_target(u, sizes, i) == (neighbour(u, sizes, i) as usize, true),
        bond_target(neighbour(u, sizes, i), sizes, partner_slot(i)) == (u as usize, true),
{
    let nb = neighbour(u, sizes, i);
    let pi = partner_slot(i);
    lemma_neighbour_symmetric(sizes, u, i);
    assert(!repeats_earlier(u, sizes, i)) by {
        assert forall|j2: int| 0 <= j2 < i implies #[trigger] neighbour(u, sizes, j2) != nb by {
            lemma_neighbours_distinct(sizes, u, i, j2);
        }
    }
    assert(neighbour(nb, sizes, pi) == u);
    assert(0 <= pi < 2 * sizes.len());
    assert(!repeats_earlier(nb, sizes, pi)) by {
        assert forall|j2: int| 0 <= j2 < pi implies #[trigger] neighbour(nb, sizes, j2) != u by {
            lemma_neighbours_distinct(sizes, nb, pi, j2);
        }
    }
}

/// The periodic lattice underlying an Ising model: its number of sides, the
/// length of each side, and its number of sites.
#[derive(Debug)]
pub struct Lattice {
    dim: usize,
    sizes: Vec<usize>,
    n_points: usize,
}

impl Lattice {
    /// The number of sides given at construction.
    pub closed spec fn spec_dim(&self) -> nat {
        self.dim as nat
    }

    /// The lengths of the sides.
    pub closed spec fn spec_sizes(&self) -> Seq<usize> {
        self.sizes@
    }

    /// The number of sites.
    pub closed spec fn spec_n_points(&self) -> nat {
        self.n_points as nat
    }

    /// The number of sites is the product of the sides, and every running
    /// product of the sides fits in a `usize`.
    pub open spec fn wf(&self) -> bool {
        &&& self.spec_n_points() == product(self.spec_sizes())
        &&& prefix_products_fit(self.spec_sizes())
    }

    /// A lattice with the given sides; its number of sites is their product.
    pub fn new(dim: usize, sizes: Vec<usize>) -> (r: Self)
        requires
            prefix_products_fit(sizes@),
        ensures
            r.wf(),
            r.spec_dim() == dim,
            r.spec_sizes() == sizes@,
    {
        let mut n_points: usize = 1;
        let mut i: usize = 0;
        while i < sizes.len()
            invariant
                i <= sizes.len(),
                n_points == product(sizes@.take(i as int)),
                prefix_products_fit(sizes@),
            decreases sizes.len() - i,
        {
            proof {
                lemma_take_step(sizes@, i as int);
                assert(product(sizes@.take(i + 1)) <= usize::MAX);
            }
            n_points = n_points * sizes[i];
            i = i + 1;
        }
        proof {
            assert(sizes@.take(sizes.len() as int) =~= sizes@);
        }
        Lattice { dim, sizes, n_points }
    }

    /// The number of sides given at construction.
    pub fn dim(&self) -> (r: usize)
        ensures
            r == self.spec_dim(),
    {
        self.dim
    }

    /// The number of sites.
    pub fn n_points(&self) -> (r: usize)
        ensures
            r == self.spec_n_points(),
    {
        self.n_points
    }

    /// The lengths of the sides.
    pub fn sizes(&self) -> (r: &Vec<usize>)
        ensures
            r@ == self.spec_sizes(),
    {
        &self.sizes
    }

    /// Position of edge `edge_index` of `vertex` in a list that keeps
    /// `2 * dim` edges per site.
    pub fn edge_index(&self, vertex: usize, edge_index: usize) -> (r: usize)
        requires
            2 * vertex <= usize::MAX,
            2 * vertex * self.spec_dim() + edge_index <= usize::MAX,
        ensures
            r == 2 * vertex * self.spec_dim() + edge_index,
    {
        proof {
            lemma_mul_nonnegative(2 * vertex, self.dim as int);
        }
        2 * vertex * self.dim + edge_index
    }

    /// The coordinates of `node`, one per side.
    pub fn to_coord(&self, node: usize) -> (coord: Vec<usize>)
        requires
            all_positive(self.spec_sizes()),
        ensures
            coord@ == coords_of(node as int, self.spec_sizes()),
    {
        let len = self.sizes.len();
        let ghost sizes = self.sizes@;
        let mut coord: Vec<usize> = Vec::new();
        let mut k: usize = 0;
        while k < len
            invariant
                k <= len,
                coord@.len() == k,
            decreases len - k,
        {
            coord.push(0);
            k = k + 1;
        }
        let mut node_copy = node;
        let mut i: usize = len;
        proof {
            assert(sizes.subrange(len as int, len as int).len() == 0);
            assert(node as int / 1 == node);
        }
        while i > 0
            invariant
                i <= len == sizes.len(),
                sizes == self.sizes@,
                all_positive(sizes),
                coord@.len() == len,
                node_copy == node as int / product(sizes.subrange(i as int, len as int)),
                forall|t: int| i <= t < len ==> #[trigger] coord@[t] == digit(node as int, sizes, t) as usize,
            decreases i,
        {
            i = i - 1;
            proof {
                lemma_suffix_step(sizes, i as int, len as int);
                lemma_suffix_positive(sizes, i + 1, len as int);
                lemma_div_denominator(
                    node as int,
                    product(sizes.subrange(i + 1, len as int)),
                    sizes[i as int] as int,
                );
                assert(product(sizes.subrange(i + 1, len as int)) * sizes[i as int] == sizes[i as int]
                    * product(sizes.subrange(i + 1, len as int))) by (nonlinear_arith);
            }
            coord.set(i, node_copy % self.sizes[i]);
            node_copy = node_copy / self.sizes[i];
        }
        proof {
            assert(coord@ =~= coords_of(node as int, sizes));
        }
        coord
    }

    /// The site with the given coordinates, read along as many sides as both
    /// lists have, the first coordinate most significant.
    pub fn from_coord(&self, coord: &[usize]) -> (node: usize)
        requires
            forall|t: int|
                0 <= t <= (if coord@.len() < self.spec_sizes().len() {
                    coord@.len() as int
                } else {
                    self.spec_sizes().len() as int
                }) ==> #[trigger] coord_value(coord@, self.spec_sizes(), t) <= usize::MAX,
        ensures
            node == coord_value(
                coord@,
                self.spec_sizes(),
                if coord@.len() < self.spec_sizes().len() {
                    coord@.len() as int
                } else {
                    self.spec_sizes().len() as int
                },
            ),
    {
        let m = if coord.len() < self.sizes.len() {
            coord.len()
        } else {
            self.sizes.len()
        };
        let mut node: usize = 0;
        let mut t: usize = 0;
        while t < m
            invariant
                t <= m,
                m <= coord@.len(),
                m <= self.sizes@.len(),
                self.sizes@ == self.spec_sizes(),
                node == coord_value(coord@, self.sizes@, t as int),
                forall|u: int| 0 <= u <= m ==> #[trigger] coord_value(coord@, self.spec_sizes(), u) <= usize::MAX,
            decreases m - t,
        {
            proof {
                assert(coord_value(coord@, self.sizes@, t + 1) <= usize::MAX);
                lemma_mul_nonnegative(node as int, self.sizes@[t as int] as int);
            }
            node = node * self.sizes[t] + coord[t];
            t = t + 1;
        }
        node
    }

    /// The neighbours of `node`: for each side `i`, slot `2i` holds the next
    /// site along that side and slot `2i + 1` the previous one, wrapping
    /// around; a side of length one gives `node` twice.
    pub fn neighbours(&self, node: usize) -> (r: Vec<usize>)
        requires
            self.wf(),
            all_positive(self.spec_sizes()),
        ensures
            r@.len() == 2 * self.spec_sizes().len(),
            forall|slot: int|
                0 <= slot < r@.len() ==> #[trigger] r@[slot] == neighbour(
                    node as int,
                    self.spec_sizes(),
                    slot,
                ),
    {
        let ghost sizes = self.sizes@;
        let mut node_coord = self.to_coord(node);
        let mut neighbours: Vec<usize> = Vec::new();
        let mut i: usize = 0;
        proof {
            lemma_coords_valid(node as int, sizes);
            lemma_product_positive(sizes);
            assert(sizes.take(sizes.len() as int) =~= sizes);
        }
        while i < self.sizes.len()
            invariant
                self.wf(),
                sizes == self.sizes@,
                all_positive(sizes),
                i <= sizes.len(),
                node_coord@ == coords_of(node as int, sizes),
                valid_coords(node_coord@, sizes),
                neighbours@.len() == 2 * i,
                forall|slot: int|
                    0 <= slot < 2 * i ==> #[trigger] neighbours@[slot] == neighbour(
                        node as int,
                        sizes,
                        slot,
                    ),
            decreases sizes.len() - i,
        {
            let s = self.sizes[i];
            if s > 1 {
                let d = node_coord[i];
                let up = if d + 1 == s { 0 } else { d + 1 };
                let down = if d == 0 { s - 1 } else { d - 1 };
                proof {
                    lemma_fundamental_div_mod_converse(d + 1, s as int, if d + 1 == s { 1 } else { 0 }, up as int);
                    lemma_fundamental_div_mod_converse(d + s - 1, s as int, if d == 0 { 0 } else { 1 }, down as int);
                }
                node_coord.set(i, up);
                proof {
                    assert(node_coord@ =~= stepped_coords(node as int, sizes, i as int, true));
                    lemma_coord_values_fit(node_coord@, sizes);
                }
                let next = self.from_coord(node_coord.as_slice());
                neighbours.push(next);
                node_coord.set(i, down);
                proof {
                    assert(node_coord@ =~= stepped_coords(node as int, sizes, i as int, false));
                    lemma_coord_values_fit(node_coord@, sizes);
                }
                let prev = self.from_coord(node_coord.as_slice());
                neighbours.push(prev);
                node_coord.set(i, d);
                proof {
                    assert(node_coord@ =~= coords_of(node as int, sizes));
                    assert((2 * i as int) / 2 == i && (2 * i as int) % 2 == 0);
                    assert((2 * i as int + 1) / 2 == i && (2 * i as int + 1) % 2 == 1);
                }
            } else {
                neighbours.push(node);
                neighbours.push(node);
                proof {
                    assert((2 * i as int) / 2 == i);
                    assert((2 * i as int + 1) / 2 == i);
                }
            }
            i = i + 1;
        }
        neighbours
    }
    /// The bond each slot of `node` carries in the model's edge list, with
    /// whether it keeps the weight given for the slot.
    pub fn bond_targets(&self, node: usize) -> (r: Vec<(usize, bool)>)
        requires
            self.wf(),
            all_positive(self.spec_sizes()),
        ensures
            r@.len() == 2 * self.spec_sizes().len(),
            forall|j: int|
                0 <= j < r@.len() ==> #[trigger] r@[j] == bond_target(
                    node as int,
                    self.spec_sizes(),
                    j,
                ),
    {
        let ghost sizes = self.sizes@;
        let nbs = self.neighbours(node);
        let mut r: Vec<(usize, bool)> = Vec::new();
        let mut j: usize = 0;
        while j < nbs.len()
            invariant
                j <= nbs@.len(),
                nbs@.len() == 2 * sizes.len(),
                forall|slot: int|
                    0 <= slot < nbs@.len() ==> #[trigger] nbs@[slot] == neighbour(
                        node as int,
                        sizes,
                        slot,
                    ),
                r@.len() == j,
                forall|t: int| 0 <= t < j ==> #[trigger] r@[t] == bond_target(node as int, sizes, t),
            decreases nbs@.len() - j,
        {
            let nb = nbs[j];
            if nb == node {
                r.push((nb, true));
            } else {
                let mut k: usize = 0;
                let mut seen = false;
                while k < j
                    invariant
                        k <= j < nbs@.len(),
                        nb == nbs@[j as int],
                        seen == exists|t: int| 0 <= t < k && nbs@[t] == nb,
                    decreases j - k,
                {
                    if nbs[k] == nb {
                        seen = true;
                    }
                    k = k + 1;
                }
                proof {
                    if seen {
                        let t = choose|t: int| 0 <= t < k && nbs@[t] == nb;
                        assert(nbs@[t] == neighbour(node as int, sizes, t));
                        assert(repeats_earlier(node as int, sizes, j as int));
                    } else {
                        assert(!repeats_earlier(node as int, sizes, j as int)) by {
                            if repeats_earlier(node as int, sizes, j as int) {
                                let t = choose|t: int|
                                    0 <= t < j && #[trigger] neighbour(node as int, sizes, t)
                                        == neighbour(node as int, sizes, j as int);
                                assert(nbs@[t] == nb);
                            }
                        }
                    }
                }
                if seen {
                    r.push((node, false));
                } else {
                    r.push((nb, true));
                }
            }
            j = j + 1;
        }
        r
    }

    /// Where each weight read for the lattice goes: one weight per bond from
    /// a site to a higher site, taken site by site in slot order, and stored
    /// at the positions of that bond seen from both of its ends.
    pub fn weight_slots(&self) -> (r: Vec<(usize, usize)>)
        requires
            self.wf(),
            all_positive(self.spec_sizes()),
            self.spec_dim() == self.spec_sizes().len(),
            2 * self.spec_dim() * self.spec_n_points() <= usize::MAX,
        ensures
            r@ == weight_slots_upto(
                self.spec_sizes(),
                self.spec_dim() as int,
                self.spec_n_points() as int,
            ),
    {
        let ghost sizes = self.sizes@;
        let ghost dim = self.dim as int;
        let ghost n = self.n_points as int;
        let mut r: Vec<(usize, usize)> = Vec::new();
        let mut node: usize = 0;
        while node < self.n_points
            invariant
                self.wf(),
                sizes == self.sizes@,
                dim == self.dim,
                n == self.n_points,
                all_positive(sizes),
                dim == sizes.len(),
                2 * dim * n <= usize::MAX,
                node <= n,
                r@ == weight_slots_upto(sizes, dim, node as int),
            decreases n - node,
        {
            let nbs = self.neighbours(node);
            proof {
                assert(2 * dim <= 2 * dim * n) by (nonlinear_arith)
                    requires
                        node < n,
                        dim >= 0,
                ;
                assert(2 * dim * node + 2 * dim <= 2 * dim * n) by (nonlinear_arith)
                    requires
                        node < n,
                        dim >= 0,
                ;
            }
            let base = 2 * self.dim * node;
            let ghost before = r@;
            let mut j: usize = 0;
            while j < nbs.len()
                invariant
                    self.wf(),
                    sizes == self.sizes@,
                    dim == self.dim,
                    n == self.n_points,
                    all_positive(sizes),
                    dim == sizes.len(),
                    2 * dim * n <= usize::MAX,
                    node < n,
                    base == 2 * dim * node,
                    base + 2 * dim <= 2 * dim * n,
                    j <= nbs@.len(),
                    nbs@.len() == 2 * sizes.len(),
                    forall|slot: int|
                        0 <= slot < nbs@.len() ==> #[trigger] nbs@[slot] == neighbour(
                            node as int,
                            sizes,
                            slot,
                        ),
                    r@ == before + row_weight_slots(node as int, sizes, dim, j as int),
                decreases nbs@.len() - j,
            {
                let nb = nbs[j];
                if nb > node {
                    proof {
                        assert(sizes.take(sizes.len() as int) =~= sizes);
                        lemma_neighbour_symmetric(sizes, node as int, j as int);
                        assert(2 * dim * nb + 2 * dim <= 2 * dim * n) by (nonlinear_arith)
                            requires
                                nb < n,
                                dim >= 0,
                        ;
                    }
                    let partner = if j % 2 == 0 { j + 1 } else { j - 1 };
                    let pair = (base + j, 2 * self.dim * nb + partner);
                    r.push(pair);
                    proof {
                        assert(r@ =~= before + row_weight_slots(node as int, sizes, dim, j + 1));
                    }
                } else {
                    proof {
                        assert(r@ =~= before + row_weight_slots(node as int, sizes, dim, j + 1));
                    }
                }
                j = j + 1;
            }
            proof {
                assert(r@ =~= weight_slots_upto(sizes, dim, node + 1));
            }
            node = node + 1;
        }
        r
    }
}

} // verus!
