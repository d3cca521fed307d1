//! Coordinates of the nine-dimensional phext space.
//!
//! A coordinate holds nine dimensions. Inside a universe with extents
//! `e`, dimension `i` runs from 1 up to `e[i]`. Coordinates are numbered
//! in mixed radix, the first dimension being the least significant digit.

use vstd::prelude::*;
use vstd::arithmetic::div_mod::lemma_fundamental_div_mod_converse;
use crate::random::ThreadDraws;

verus! {

/// Product of all extents: the number of coordinates they span.
pub open spec fn extent_product(ext: Seq<u8>) -> int
    decreases ext.len(),
{
    if ext.len() == 0 {
        1
    } else {
        extent_product(ext.drop_last()) * ext.last()
    }
}

/// The linear index of `dims` in the mixed radix given by `ext`:
/// `(d0 - 1) + e0 * ((d1 - 1) + e1 * (...))`.
pub open spec fn linear_index(dims: Seq<u8>, ext: Seq<u8>) -> int
    decreases dims.len(),
{
    if dims.len() == 0 {
        0
    } else {
        (dims[0] - 1) + ext[0] * linear_index(dims.drop_first(), ext.drop_first())
    }
}

/// The dimensions that a linear index stands for: the mixed-radix digits
/// of `idx`, each shifted up by one.
pub open spec fn index_dims(idx: int, ext: Seq<u8>) -> Seq<u8>
    decreases ext.len(),
{
    if ext.len() == 0 {
        Seq::<u8>::empty()
    } else {
        seq![(idx % (ext[0] as int) + 1) as u8] + index_dims(idx / (ext[0] as int), ext.drop_first())
    }
}

/// Every dimension lies between 1 and its extent.
pub open spec fn within(dims: Seq<u8>, ext: Seq<u8>) -> bool {
    &&& dims.len() == ext.len()
    &&& forall|i: int| 0 <= i < dims.len() ==> 1 <= #[trigger] dims[i] <= ext[i]
}

/// Every extent is at least 1.
pub open spec fn extents_positive(ext: Seq<u8>) -> bool {
    forall|i: int| 0 <= i < ext.len() ==> #[trigger] ext[i] >= 1
}

/// The products of the first `n` extents, for every `n`, fit in a `usize`.
pub open spec fn prefix_products_fit(ext: Seq<u8>) -> bool {
    forall|n: int| 0 <= n <= ext.len() ==> #[trigger] extent_product(ext.take(n)) <= usize::MAX
}

/// `to_index` computes without overflow: every dimension is at least 1,
/// the running products of the extents fit, and so does the index.
pub open spec fn index_computable(dims: Seq<u8>, ext: Seq<u8>) -> bool {
    &&& dims.len() == ext.len()
    &&& forall|i: int| 0 <= i < dims.len() ==> #[trigger] dims[i] >= 1
    &&& prefix_products_fit(ext)
    &&& linear_index(dims, ext) <= usize::MAX
}

/// The neighbor of `dims` at `delta` along `dim`, if it stays between 1
/// and that dimension's extent.
pub open spec fn neighbor_dims(dims: Seq<u8>, dim: int, delta: int, ext: Seq<u8>) -> Option<Seq<u8>> {
    if dim < 0 || dim >= 9 || dims[dim] + delta < 1 || dims[dim] + delta > ext[dim] {
        None
    } else {
        Some(dims.update(dim, (dims[dim] + delta) as u8))
    }
}

pub open spec fn option_to_seq(o: Option<Seq<u8>>) -> Seq<Seq<u8>> {
    match o {
        Some(d) => seq![d],
        None => Seq::<Seq<u8>>::empty(),
    }
}

/// The Von Neumann neighbors along the first `n` dimensions, in the order
/// dimension by dimension, the lower neighbor before the upper one.
pub open spec fn von_neumann_dims(dims: Seq<u8>, ext: Seq<u8>, n: int) -> Seq<Seq<u8>>
    decreases n,
{
    if n <= 0 {
        Seq::<Seq<u8>>::empty()
    } else {
        von_neumann_dims(dims, ext, n - 1) + option_to_seq(neighbor_dims(dims, n - 1, -1, ext))
            + option_to_seq(neighbor_dims(dims, n - 1, 1, ext))
    }
}

pub open spec fn abs_diff(a: u8, b: u8) -> int {
    if a >= b {
        a - b
    } else {
        b - a
    }
}

/// Manhattan distance between two sequences of dimensions.
pub open spec fn manhattan(a: Seq<u8>, b: Seq<u8>) -> int
    decreases a.len(),
{
    if a.len() == 0 {
        0
    } else {
        manhattan(a.drop_last(), b.drop_last()) + abs_diff(a.last(), b.last())
    }
}

/// The character of the decimal digit `d`.
pub open spec fn digit_char(d: int) -> char {
    (48 + d) as char
}

/// The decimal numeral of `n`, without leading zeros.
pub open spec fn decimal(n: nat) -> Seq<char>
    decreases n,
{
    if n < 10 {
        seq![digit_char(n as int)]
    } else {
        decimal(n / 10).push(digit_char((n % 10) as int))
    }
}

/// The character written after dimension `i` in an address: a slash
/// closes each group of three dimensions, a dot separates the others.
pub open spec fn separator_after(i: int) -> char {
    if i == 2 || i == 5 {
        '/'
    } else {
        '.'
    }
}

/// The address text of the first `n` dimensions (`n >= 1`).
pub open spec fn address_prefix(dims: Seq<u8>, n: int) -> Seq<char>
    decreases n,
{
    if n <= 1 {
        decimal(dims[0] as nat)
    } else {
        address_prefix(dims, n - 1).push(separator_after(n - 2)) + decimal(dims[n - 1] as nat)
    }
}

/// The address of a coordinate, such as `1.2.3/4.5.6/7.8.9`.
pub open spec fn address_text(dims: Seq<u8>) -> Seq<char> {
    address_prefix(dims, 9)
}

/// Calls `String::push`, which appends one character to the end.
#[verifier::external_body]
fn string_push(s: &mut String, c: char)
    ensures
        final(s)@ == old(s)@.push(c),
{
    s.push(c)
}

/// Appends the decimal numeral of `n`.
fn push_decimal(s: &mut String, n: u8)
    ensures
        final(s)@ == old(s)@ + decimal(n as nat),
{
    reveal_with_fuel(decimal, 3);
    let ghost start = s@;
    if n >= 100 {
        string_push(s, ((n / 100) + 48) as char);
    }
    if n >= 10 {
        string_push(s, ((n / 10) % 10 + 48) as char);
    }
    string_push(s, (n % 10 + 48) as char);
    if n >= 100 {
        assert(decimal((n / 10) as nat) == seq![digit_char((n / 100) as int)].push(
            digit_char(((n / 10) % 10) as int),
        ));
    }
    assert(s@ =~= start + decimal(n as nat));
}

/// A point of the nine navigation dimensions.
#[derive(Clone, Copy, PartialEq, Eq, Hash, Debug)]
pub struct Coordinate {
    pub dims: [u8; 9],
}

impl Default for Coordinate {
    fn default() -> (c: Self)
        ensures
            forall|i: int| 0 <= i < 9 ==> c.dims@[i] == 0,
    {
        Coordinate { dims: [0u8; 9] }
    }
}

impl Coordinate {
    pub fn new(dims: [u8; 9]) -> (c: Self)
        ensures
            c.dims@ == dims@,
    {
        Self { dims }
    }

    pub fn origin() -> (c: Self)
        ensures
            c.dims@.len() == 9,
            forall|i: int| 0 <= i < 9 ==> c.dims@[i] == 1,
    {
        Self { dims: [1u8; 9] }
    }

    /// A coordinate drawn at random within `extents`.
    pub fn random(extents: &[u8; 9]) -> (c: Self)
        requires
            extents_positive(extents@),
        ensures
            within(c.dims@, extents@),
    {
        let mut rng = ThreadDraws::new();
        Self::draw(&mut rng, extents)
    }

    /// A coordinate drawn with `rng` within `extents`: dimension `i` is a
    /// draw from `1..=extents[i]`, and the nine draws are the next nine
    /// bytes on the generator's record, in order.
    pub fn draw(rng: &mut ThreadDraws, extents: &[u8; 9]) -> (c: Self)
        requires
            extents_positive(extents@),
        ensures
            within(c.dims@, extents@),
            final(rng).drawn() == old(rng).drawn() + c.dims@,
    {
        let mut dims: [u8; 9] = [0u8; 9];
        let mut i: usize = 0;
        while i < 9
            invariant
                0 <= i <= 9,
                dims@.len() == 9,
                extents@.len() == 9,
                extents_positive(extents@),
                forall|j: int| 0 <= j < i ==> 1 <= #[trigger] dims@[j] <= extents@[j],
                rng.drawn() == old(rng).drawn() + dims@.take(i as int),
            decreases 9 - i,
        {
            assert(extents@[i as int] >= 1);
            let d = rng.next_in(1, extents[i]);
            let ghost before = dims@;
            dims[i] = d;
            assert(dims@.take(i + 1) =~= before.take(i as int).push(d));
            i = i + 1;
        }
        assert(dims@.take(9) =~= dims@);
        Self { dims }
    }

    /// The neighbor at `delta` along dimension `dim`; `None` when `dim` is
    /// not a dimension or the neighbor would leave `1..=extents[dim]`.
    pub fn neighbor(&self, dim: usize, delta: i8, extents: &[u8; 9]) -> (r: Option<Self>)
        ensures
            match r {
                Some(n) => neighbor_dims(self.dims@, dim as int, delta as int, extents@) == Some(
                    n.dims@,
                ),
                None => neighbor_dims(self.dims@, dim as int, delta as int, extents@) is None,
            },
    {
        if dim >= 9 {
            return None;
        }
        let new_val: i16 = self.dims[dim] as i16 + delta as i16;
        if new_val < 1 || new_val > extents[dim] as i16 {
            return None;
        }
        let mut new_coord = *self;
        new_coord.dims[dim] = new_val as u8;
        assert(new_coord.dims@ =~= self.dims@.update(dim as int, new_val as u8));
        Some(new_coord)
    }

    /// All Von Neumann neighbors (one step down and one step up in each
    /// dimension) that stay within the extents.
    pub fn von_neumann_neighbors(&self, extents: &[u8; 9]) -> (r: Vec<Self>)
        ensures
            r@.map_values(|c: Coordinate| c.dims@) == von_neumann_dims(self.dims@, extents@, 9),
    {
        let mut neighbors: Vec<Coordinate> = Vec::with_capacity(18);
        let mut dim: usize = 0;
        while dim < 9
            invariant
                0 <= dim <= 9,
                neighbors@.map_values(|c: Coordinate| c.dims@) == von_neumann_dims(
                    self.dims@,
                    extents@,
                    dim as int,
                ),
            decreases 9 - dim,
        {
            let ghost before = neighbors@;
            if let Some(n) = self.neighbor(dim, -1, extents) {
                neighbors.push(n);
            }
            let ghost middle = neighbors@;
            assert(middle.map_values(|c: Coordinate| c.dims@) == before.map_values(
                |c: Coordinate| c.dims@,
            ) + option_to_seq(neighbor_dims(self.dims@, dim as int, -1, extents@)));
            if let Some(n) = self.neighbor(dim, 1, extents) {
                neighbors.push(n);
            }
            assert(neighbors@.map_values(|c: Coordinate| c.dims@) == middle.map_values(
                |c: Coordinate| c.dims@,
            ) + option_to_seq(neighbor_dims(self.dims@, dim as int, 1, extents@)));
            dim = dim + 1;
        }
        neighbors
    }

    /// Manhattan distance over the nine dimensions.
    pub fn distance(&self, other: &Self) -> (d: u32)
        ensures
            d == manhattan(self.dims@, other.dims@),
    {
        let mut sum: u32 = 0;
        let mut i: usize = 0;
        while i < 9
            invariant
                0 <= i <= 9,
                self.dims@.len() == 9,
                other.dims@.len() == 9,
                sum == manhattan(self.dims@.take(i as int), other.dims@.take(i as int)),
                sum <= 255 * i,
            decreases 9 - i,
        {
            let a = self.dims[i];
            let b = other.dims[i];
            let diff: u32 = if a >= b {
                (a - b) as u32
            } else {
                (b - a) as u32
            };
            assert(self.dims@.take(i + 1).drop_last() =~= self.dims@.take(i as int));
            assert(other.dims@.take(i + 1).drop_last() =~= other.dims@.take(i as int));
            sum = sum + diff;
            i = i + 1;
        }
        assert(self.dims@.take(9) =~= self.dims@);
        assert(other.dims@.take(9) =~= other.dims@);
        sum
    }

    /// The address text of the coordinate: the nine dimensions in
    /// decimal, in groups of three joined by `/`, within a group by `.`.
    pub fn to_string(&self) -> (s: String)
        ensures
            s@ == address_text(self.dims@),
    {
        let mut s = String::new();
        push_decimal(&mut s, self.dims[0]);
        let mut i: usize = 1;
        while i < 9
            invariant
                1 <= i <= 9,
                self.dims@.len() == 9,
                s@ == address_prefix(self.dims@, i as int),
            decreases 9 - i,
        {
            let sep = if i == 3 || i == 6 {
                '/'
            } else {
                '.'
            };
            string_push(&mut s, sep);
            push_decimal(&mut s, self.dims[i]);
            i = i + 1;
        }
        s
    }

    /// The linear index of this coordinate within `extents`.
    pub fn to_index(&self, extents: &[u8; 9]) -> (idx: usize)
        requires
            index_computable(self.dims@, extents@),
        ensures
            idx == linear_index(self.dims@, extents@),
    {
        let ghost d = self.dims@;
        let ghost e = extents@;
        let mut idx: usize = 0;
        let mut multiplier: usize = 1;
        let mut i: usize = 0;
        assert(d.skip(0) =~= d);
        assert(e.skip(0) =~= e);
        assert(e.take(0) =~= Seq::<u8>::empty());
        while i < 9
            invariant
                0 <= i <= 9,
                d == self.dims@,
                e == extents@,
                d.len() == 9,
                e.len() == 9,
                index_computable(d, e),
                multiplier == extent_product(e.take(i as int)),
                idx + multiplier * linear_index(d.skip(i as int), e.skip(i as int))
                    == linear_index(d, e),
            decreases 9 - i,
        {
            let ghost h = linear_index(d.skip(i as int), e.skip(i as int));
            let ghost h_next = linear_index(d.skip(i + 1), e.skip(i + 1));
            assert(d.skip(i as int).drop_first() =~= d.skip(i + 1));
            assert(e.skip(i as int).drop_first() =~= e.skip(i + 1));
            assert(h == (d[i as int] - 1) + e[i as int] * h_next);
            assert(e.take(i + 1).drop_last() =~= e.take(i as int));
            assert(extent_product(e.take(i + 1)) == multiplier * e[i as int]);
            assert(d[i as int] >= 1);
            proof {
                lemma_extent_product_nonneg(e.take(i + 1));
                lemma_linear_index_nonneg(d.skip(i + 1), e.skip(i + 1));
            }
            let ghost m2 = multiplier * e[i as int];
            assert(idx + multiplier * (d[i as int] - 1) + m2 * h_next == idx + multiplier * h)
                by (nonlinear_arith)
                requires
                    h == (d[i as int] - 1) + e[i as int] * h_next,
                    m2 == multiplier * e[i as int],
            ;
            assert(m2 * h_next >= 0) by (nonlinear_arith)
                requires
                    m2 >= 0,
                    h_next >= 0,
            ;
            assert(multiplier * (d[i as int] - 1) >= 0) by (nonlinear_arith)
                requires
                    multiplier >= 0,
                    d[i as int] - 1 >= 0,
            ;
            assert(idx + multiplier * (d[i as int] - 1) <= usize::MAX);
            let digit: usize = self.dims[i] as usize - 1;
            idx = idx + multiplier * digit;
            assert(0 <= i + 1 <= 9);
            assert(extent_product(e.take(i + 1)) <= usize::MAX);
            multiplier = multiplier * extents[i] as usize;
            i = i + 1;
        }
        assert(d.skip(9) =~= Seq::<u8>::empty());
        idx
    }

    /// The coordinate whose linear index within `extents` is `idx`.
    pub fn from_index(idx: usize, extents: &[u8; 9]) -> (c: Self)
        requires
            extents_positive(extents@),
        ensures
            c.dims@ == index_dims(idx as int, extents@),
    {
        let ghost e = extents@;
        let mut rest: usize = idx;
        let mut dims: [u8; 9] = [1u8; 9];
        let mut i: usize = 0;
        assert(e.skip(0) =~= e);
        assert(dims@.take(0) + index_dims(idx as int, e.skip(0)) =~= index_dims(idx as int, e));
        while i < 9
            invariant
                0 <= i <= 9,
                e == extents@,
                e.len() == 9,
                dims@.len() == 9,
                extents_positive(e),
                index_dims(idx as int, e) == dims@.take(i as int) + index_dims(
                    rest as int,
                    e.skip(i as int),
                ),
            decreases 9 - i,
        {
            let ext = extents[i] as usize;
            assert(e[i as int] >= 1);
            let digit: u8 = (rest % ext) as u8 + 1;
            let ghost old_dims = dims@;
            dims[i] = digit;
            assert(e.skip(i as int).drop_first() =~= e.skip(i + 1));
            assert(index_dims(rest as int, e.skip(i as int)) == seq![digit] + index_dims(
                (rest / ext) as int,
                e.skip(i + 1),
            ));
            assert(dims@.take(i + 1) =~= old_dims.take(i as int) + seq![digit]);
            rest = rest / ext;
            i = i + 1;
        }
        assert(e.skip(9) =~= Seq::<u8>::empty());
        assert(dims@.take(9) =~= dims@);
        Self { dims }
    }
}

// ----------------------------------------------------------------------
// Lemmas on the mixed-radix numbering
// ----------------------------------------------------------------------

pub proof fn lemma_extent_product_nonneg(ext: Seq<u8>)
    ensures
        extent_product(ext) >= 0,
    decreases ext.len(),
{
    if ext.len() > 0 {
        lemma_extent_product_nonneg(ext.drop_last());
        let p = extent_product(ext.drop_last());
        let l = ext.last();
        assert(p * l >= 0) by (nonlinear_arith)
            requires
                p >= 0,
                l >= 0,
        ;
    }
}

pub proof fn lemma_linear_index_nonneg(dims: Seq<u8>, ext: Seq<u8>)
    requires
        dims.len() <= ext.len(),
        forall|i: int| 0 <= i < dims.len() ==> #[trigger] dims[i] >= 1,
    ensures
        linear_index(dims, ext) >= 0,
    decreases dims.len(),
{
    if dims.len() > 0 {
        let rest = dims.drop_first();
        assert forall|i: int| 0 <= i < rest.len() implies #[trigger] rest[i] >= 1 by {
            assert(rest[i] == dims[i + 1]);
        }
        lemma_linear_index_nonneg(rest, ext.drop_first());
        let h = linear_index(rest, ext.drop_first());
        let e0 = ext[0];
        assert(e0 * h >= 0) by (nonlinear_arith)
            requires
                e0 >= 0,
                h >= 0,
        ;
    }
}

/// A zero extent makes the product of the extents zero.
pub proof fn lemma_zero_extent_product(ext: Seq<u8>, i: int)
    requires
        0 <= i < ext.len(),
        ext[i] == 0,
    ensures
        extent_product(ext) == 0,
    decreases ext.len(),
{
    if i < ext.len() - 1 {
        lemma_zero_extent_product(ext.drop_last(), i);
    }
}

/// Where some number lies below the product of the extents, every extent
/// is at least 1.
pub proof fn lemma_positive_product_extents(ext: Seq<u8>, k: int)
    requires
        0 <= k < extent_product(ext),
    ensures
        extents_positive(ext),
{
    assert forall|i: int| 0 <= i < ext.len() implies #[trigger] ext[i] >= 1 by {
        if ext[i] == 0 {
            lemma_zero_extent_product(ext, i);
        }
    }
}

/// The product of the extents splits off its first factor as well as its last.
pub proof fn lemma_extent_product_first(ext: Seq<u8>)
    requires
        ext.len() >= 1,
    ensures
        extent_product(ext) == ext[0] * extent_product(ext.drop_first()),
    decreases ext.len(),
{
    if ext.len() == 1 {
        assert(ext.drop_last() =~= Seq::<u8>::empty());
        assert(ext.drop_first() =~= Seq::<u8>::empty());
        assert(ext.last() == ext[0]);
    } else {
        let init = ext.drop_last();
        lemma_extent_product_first(init);
        assert(init.drop_first() =~= ext.drop_first().drop_last());
        assert(ext.drop_first().last() == ext.last());
        let a = ext[0] as int;
        let b = extent_product(init.drop_first());
        let c = ext.last() as int;
        assert((a * b) * c == a * (b * c)) by (nonlinear_arith);
    }
}

/// Products of prefixes grow with the prefix when all extents are positive.
pub proof fn lemma_prefix_product_le(ext: Seq<u8>, n: int)
    requires
        0 <= n <= ext.len(),
        extents_positive(ext),
    ensures
        extent_product(ext.take(n)) <= extent_product(ext),
    decreases ext.len() - n,
{
    if n < ext.len() {
        lemma_prefix_product_le(ext, n + 1);
        assert(ext.take(n + 1).drop_last() =~= ext.take(n));
        assert(ext.take(n + 1).last() == ext[n]);
        lemma_extent_product_nonneg(ext.take(n));
        let p = extent_product(ext.take(n));
        let x = ext[n] as int;
        assert(p <= p * x) by (nonlinear_arith)
            requires
                p >= 0,
                x >= 1,
        ;
    } else {
        assert(ext.take(n) =~= ext);
    }
}

/// A coordinate within the extents has a linear index below their product.
pub proof fn lemma_linear_index_bound(dims: Seq<u8>, ext: Seq<u8>)
    requires
        within(dims, ext),
    ensures
        0 <= linear_index(dims, ext) < extent_product(ext),
    decreases dims.len(),
{
    if dims.len() == 0 {
    } else {
        let rest = dims.drop_first();
        let erest = ext.drop_first();
        assert forall|i: int| 0 <= i < rest.len() implies 1 <= #[trigger] rest[i] <= erest[i] by {
            assert(rest[i] == dims[i + 1]);
            assert(erest[i] == ext[i + 1]);
        }
        lemma_linear_index_bound(rest, erest);
        lemma_extent_product_first(ext);
        assert(1 <= dims[0] <= ext[0]);
        let h = linear_index(rest, erest);
        let p = extent_product(erest);
        let d0 = dims[0] as int;
        let e0 = ext[0] as int;
        assert(0 <= (d0 - 1) + e0 * h < e0 * p) by (nonlinear_arith)
            requires
                1 <= d0 <= e0,
                0 <= h < p,
        ;
    }
}

/// Numbering a coordinate within the extents and decoding the number
/// gives the coordinate back.
pub proof fn lemma_index_dims_of_linear_index(dims: Seq<u8>, ext: Seq<u8>)
    requires
        within(dims, ext),
    ensures
        index_dims(linear_index(dims, ext), ext) == dims,
    decreases dims.len(),
{
    if dims.len() == 0 {
        assert(index_dims(0, ext) =~= dims);
    } else {
        let rest = dims.drop_first();
        let erest = ext.drop_first();
        assert forall|i: int| 0 <= i < rest.len() implies 1 <= #[trigger] rest[i] <= erest[i] by {
            assert(rest[i] == dims[i + 1]);
            assert(erest[i] == ext[i + 1]);
        }
        lemma_index_dims_of_linear_index(rest, erest);
        assert(1 <= dims[0] <= ext[0]);
        let h = linear_index(rest, erest);
        let l = linear_index(dims, ext);
        let e0 = ext[0] as int;
        let r = dims[0] - 1;
        assert(l == h * e0 + r) by (nonlinear_arith)
            requires
                l == r + e0 * h,
        ;
        lemma_fundamental_div_mod_converse(l, e0, h, r);
        assert(index_dims(l, ext) =~= seq![dims[0]] + rest);
        assert(seq![dims[0]] + rest =~= dims);
    }
}

/// Decoding any index gives a coordinate within the extents.
pub proof fn lemma_index_dims_within(idx: int, ext: Seq<u8>)
    requires
        extents_positive(ext),
        idx >= 0,
    ensures
        within(index_dims(idx, ext), ext),
    decreases ext.len(),
{
    if ext.len() > 0 {
        let e0 = ext[0] as int;
        let erest = ext.drop_first();
        assert(e0 >= 1);
        assert forall|i: int| 0 <= i < erest.len() implies #[trigger] erest[i] >= 1 by {
            assert(erest[i] == ext[i + 1]);
        }
        let q = idx / e0;
        let r = idx % e0;
        assert(q >= 0 && 0 <= r < e0) by {
            vstd::arithmetic::div_mod::lemma_fundamental_div_mod(idx, e0);
            vstd::arithmetic::div_mod::lemma_div_pos_is_pos(idx, e0);
        }
        lemma_index_dims_within(q, erest);
        let d = index_dims(idx, ext);
        let drest = index_dims(q, erest);
        assert(d[0] == r + 1);
        assert forall|i: int| 0 <= i < d.len() implies 1 <= #[trigger] d[i] <= ext[i] by {
            if i > 0 {
                assert(d[i] == drest[i - 1]);
                assert(ext[i] == erest[i - 1]);
            }
        }
    }
}

/// Decoding an index below the product of the extents gives a coordinate
/// within the extents whose number is that index.
pub proof fn lemma_linear_index_of_index_dims(idx: int, ext: Seq<u8>)
    requires
        extents_positive(ext),
        0 <= idx < extent_product(ext),
    ensures
        within(index_dims(idx, ext), ext),
        linear_index(index_dims(idx, ext), ext) == idx,
    decreases ext.len(),
{
    if ext.len() == 0 {
    } else {
        let e0 = ext[0] as int;
        let erest = ext.drop_first();
        assert(e0 >= 1);
        assert forall|i: int| 0 <= i < erest.len() implies #[trigger] erest[i] >= 1 by {
            assert(erest[i] == ext[i + 1]);
        }
        lemma_extent_product_first(ext);
        let p = extent_product(erest);
        let q = idx / e0;
        let r = idx % e0;
        assert(idx == e0 * q + r && 0 <= r < e0) by {
            vstd::arithmetic::div_mod::lemma_fundamental_div_mod(idx, e0);
        }
        assert(0 <= q < p) by (nonlinear_arith)
            requires
                idx == e0 * q + r,
                0 <= r < e0,
                0 <= idx < e0 * p,
        ;
        lemma_linear_index_of_index_dims(q, erest);
        let d = index_dims(idx, ext);
        let drest = index_dims(q, erest);
        assert(d[0] == r + 1);
        assert(d.drop_first() =~= drest);
        assert forall|i: int| 0 <= i < d.len() implies 1 <= #[trigger] d[i] <= ext[i] by {
            if i > 0 {
                assert(d[i] == drest[i - 1]);
                assert(ext[i] == erest[i - 1]);
            }
        }
    }
}

/// Extents no larger than `b` span at most `b` to the power of their number.
pub proof fn lemma_extent_product_le_power(ext: Seq<u8>, b: int)
    requires
        b >= 0,
        forall|i: int| 0 <= i < ext.len() ==> #[trigger] ext[i] <= b,
    ensures
        0 <= extent_product(ext) <= vstd::arithmetic::power::pow(b, ext.len()),
    decreases ext.len(),
{
    if ext.len() > 0 {
        let init = ext.drop_last();
        assert forall|i: int| 0 <= i < init.len() implies #[trigger] init[i] <= b by {
            assert(init[i] == ext[i]);
        }
        lemma_extent_product_le_power(init, b);
        let p = extent_product(init);
        let q = vstd::arithmetic::power::pow(b, init.len());
        let l = ext.last() as int;
        assert(ext.last() <= b);
        vstd::arithmetic::power::lemma_pow_adds(b, init.len(), 1);
        vstd::arithmetic::power::lemma_pow1(b);
        assert(0 <= p * l <= q * b) by (nonlinear_arith)
            requires
                0 <= p <= q,
                0 <= l <= b,
        ;
        assert(q * b == vstd::arithmetic::power::pow(b, ext.len()));
    } else {
        vstd::arithmetic::power::lemma_pow0(b);
    }
}

/// Nine extents of at most 5 span no more than 5 to the ninth coordinates.
pub proof fn lemma_small_extents_fit(ext: Seq<u8>)
    requires
        ext.len() == 9,
        forall|i: int| 0 <= i < 9 ==> 1 <= #[trigger] ext[i] <= 5,
    ensures
        extents_positive(ext),
        extent_product(ext) <= 1953125,
{
    lemma_extent_product_le_power(ext, 5);
    vstd::arithmetic::power::lemma_pow1(5);
    vstd::arithmetic::power::lemma_pow_adds(5, 1, 1);
    assert(vstd::arithmetic::power::pow(5, 2) == 25);
    vstd::arithmetic::power::lemma_pow_adds(5, 2, 2);
    assert(vstd::arithmetic::power::pow(5, 4) == 625);
    vstd::arithmetic::power::lemma_pow_adds(5, 4, 1);
    assert(vstd::arithmetic::power::pow(5, 5) == 3125);
    vstd::arithmetic::power::lemma_pow_adds(5, 4, 5);
    assert(vstd::arithmetic::power::pow(5, 9) == 1953125);
}

// ----------------------------------------------------------------------
// Laws
// ----------------------------------------------------------------------

/// Numbering a coordinate that lies within the extents and decoding the
/// number gives the coordinate back (`from_index` undoes `to_index`), and
/// the number lies below the number of coordinates.
pub proof fn law_index_roundtrip(c: Coordinate, extents: [u8; 9])
    requires
        within(c.dims@, extents@),
    ensures
        index_dims(linear_index(c.dims@, extents@), extents@) == c.dims@,
        0 <= linear_index(c.dims@, extents@) < extent_product(extents@),
{
    lemma_index_dims_of_linear_index(c.dims@, extents@);
    lemma_linear_index_bound(c.dims@, extents@);
}

/// Decoding an index below the number of coordinates gives a coordinate
/// within the extents whose number is that index (`to_index` undoes
/// `from_index`).
pub proof fn law_index_roundtrip_inverse(idx: usize, extents: [u8; 9])
    requires
        extents_positive(extents@),
        idx < extent_product(extents@),
    ensures
        within(index_dims(idx as int, extents@), extents@),
        linear_index(index_dims(idx as int, extents@), extents@) == idx,
{
    lemma_linear_index_of_index_dims(idx as int, extents@);
}

/// Decoding depends on an index only up to the number of coordinates.
pub proof fn lemma_index_dims_mod(idx: int, ext: Seq<u8>)
    requires
        extents_positive(ext),
        idx >= 0,
    ensures
        index_dims(idx, ext) == index_dims(idx % extent_product(ext), ext),
    decreases ext.len(),
{
    if ext.len() > 0 {
        let e0 = ext[0] as int;
        let rest = ext.drop_first();
        assert(e0 >= 1);
        assert forall|i: int| 0 <= i < rest.len() implies #[trigger] rest[i] >= 1 by {
            assert(rest[i] == ext[i + 1]);
        }
        lemma_extent_product_first(ext);
        lemma_extent_product_nonneg(rest);
        let p = extent_product(rest);
        assert(p >= 1) by {
            lemma_positive_product(rest);
        }
        let q = (idx / e0) % p;
        let s = idx % e0;
        let r = idx % (e0 * p);
        vstd::arithmetic::div_mod::lemma_mod_breakdown(idx, e0, p);
        vstd::arithmetic::div_mod::lemma_fundamental_div_mod(idx, e0);
        vstd::arithmetic::div_mod::lemma_div_pos_is_pos(idx, e0);
        assert(0 <= s < e0);
        assert(r == q * e0 + s) by (nonlinear_arith)
            requires
                r == e0 * q + s,
        ;
        lemma_fundamental_div_mod_converse(r, e0, q, s);
        lemma_index_dims_mod(idx / e0, rest);
        assert(index_dims(r, ext) =~= index_dims(idx, ext));
    }
}

/// Positive extents have a positive product.
pub proof fn lemma_positive_product(ext: Seq<u8>)
    requires
        extents_positive(ext),
    ensures
        extent_product(ext) >= 1,
    decreases ext.len(),
{
    if ext.len() > 0 {
        let init = ext.drop_last();
        assert forall|i: int| 0 <= i < init.len() implies #[trigger] init[i] >= 1 by {
            assert(init[i] == ext[i]);
        }
        lemma_positive_product(init);
        let p = extent_product(init);
        let l = ext.last() as int;
        assert(ext.last() >= 1);
        assert(p * l >= 1) by (nonlinear_arith)
            requires
                p >= 1,
                l >= 1,
        ;
    }
}

/// `from_index` reads an index modulo the number of coordinates: an index
/// and its remainder by that number decode to the same coordinate, which
/// lies within the extents.
pub proof fn law_from_index_mod(idx: usize, extents: [u8; 9])
    requires
        extents_positive(extents@),
    ensures
        index_dims(idx as int, extents@) == index_dims((idx as int) % extent_product(extents@), extents@),
        within(index_dims(idx as int, extents@), extents@),
{
    lemma_index_dims_mod(idx as int, extents@);
    lemma_index_dims_within(idx as int, extents@);
}

/// Positive extents whose product fits in a `usize` have every prefix
/// product fit as well.
pub proof fn lemma_prefix_products_fit(ext: Seq<u8>)
    requires
        extents_positive(ext),
        extent_product(ext) <= usize::MAX,
    ensures
        prefix_products_fit(ext),
{
    assert forall|n: int| 0 <= n <= ext.len() implies #[trigger] extent_product(ext.take(n))
        <= usize::MAX by {
        lemma_prefix_product_le(ext, n);
    }
}

/// A coordinate within extents whose product fits in a `usize` can always
/// be numbered by `to_index`.
pub proof fn law_within_is_computable(c: Coordinate, extents: [u8; 9])
    requires
        within(c.dims@, extents@),
        extent_product(extents@) <= usize::MAX,
    ensures
        index_computable(c.dims@, extents@),
{
    let e = extents@;
    assert(extents_positive(e)) by {
        assert forall|i: int| 0 <= i < e.len() implies #[trigger] e[i] >= 1 by {
            assert(1 <= c.dims@[i] <= e[i]);
        }
    }
    assert forall|n: int| 0 <= n <= e.len() implies #[trigger] extent_product(e.take(n))
        <= usize::MAX by {
        lemma_prefix_product_le(e, n);
    }
    lemma_linear_index_bound(c.dims@, e);
}

/// Number of Von Neumann neighbors that stay within the extents along
/// the first `n` dimensions.
pub open spec fn open_sides(dims: Seq<u8>, ext: Seq<u8>, n: int) -> int
    decreases n,
{
    if n <= 0 {
        0
    } else {
        open_sides(dims, ext, n - 1) + (if dims[n - 1] > 1 { 1int } else { 0int }) + (if dims[n
            - 1] < ext[n - 1] { 1int } else { 0int })
    }
}

pub proof fn lemma_manhattan_update(a: Seq<u8>, k: int, v: u8)
    requires
        0 <= k < a.len(),
    ensures
        manhattan(a, a.update(k, v)) == abs_diff(a[k], v),
    decreases a.len(),
{
    let b = a.update(k, v);
    if k == a.len() - 1 {
        assert(b.drop_last() =~= a.drop_last());
        lemma_manhattan_self(a.drop_last());
    } else {
        assert(b.drop_last() =~= a.drop_last().update(k, v));
        lemma_manhattan_update(a.drop_last(), k, v);
    }
}

pub proof fn lemma_manhattan_self(a: Seq<u8>)
    ensures
        manhattan(a, a) == 0,
    decreases a.len(),
{
    if a.len() > 0 {
        lemma_manhattan_self(a.drop_last());
    }
}

/// The distance from a coordinate to itself is zero.
pub proof fn law_distance_self(c: Coordinate)
    ensures
        manhattan(c.dims@, c.dims@) == 0,
{
    lemma_manhattan_self(c.dims@);
}

pub proof fn lemma_manhattan_symmetric(a: Seq<u8>, b: Seq<u8>)
    requires
        a.len() == b.len(),
    ensures
        manhattan(a, b) == manhattan(b, a),
    decreases a.len(),
{
    if a.len() > 0 {
        lemma_manhattan_symmetric(a.drop_last(), b.drop_last());
    }
}

/// Distance is symmetric.
pub proof fn law_distance_symmetric(a: Coordinate, b: Coordinate)
    ensures
        manhattan(a.dims@, b.dims@) == manhattan(b.dims@, a.dims@),
{
    lemma_manhattan_symmetric(a.dims@, b.dims@);
}

pub proof fn lemma_manhattan_zero(a: Seq<u8>, b: Seq<u8>)
    requires
        a.len() == b.len(),
    ensures
        manhattan(a, b) >= 0,
        manhattan(a, b) == 0 <==> a == b,
    decreases a.len(),
{
    if a.len() > 0 {
        lemma_manhattan_zero(a.drop_last(), b.drop_last());
        if manhattan(a, b) == 0 {
            assert(a.drop_last() == b.drop_last());
            assert(a.last() == b.last());
            assert(a =~= a.drop_last().push(a.last()));
            assert(b =~= b.drop_last().push(b.last()));
        }
        if a == b {
            lemma_manhattan_self(a);
        }
    } else {
        assert(a =~= b);
    }
}

/// Distance is zero exactly between equal coordinates.
pub proof fn law_distance_zero_iff_equal(a: Coordinate, b: Coordinate)
    ensures
        manhattan(a.dims@, b.dims@) == 0 <==> a.dims@ == b.dims@,
{
    lemma_manhattan_zero(a.dims@, b.dims@);
}

pub proof fn lemma_manhattan_triangle(a: Seq<u8>, b: Seq<u8>, c: Seq<u8>)
    requires
        a.len() == b.len(),
        b.len() == c.len(),
    ensures
        manhattan(a, c) <= manhattan(a, b) + manhattan(b, c),
    decreases a.len(),
{
    if a.len() > 0 {
        lemma_manhattan_triangle(a.drop_last(), b.drop_last(), c.drop_last());
    }
}

/// Distance obeys the triangle inequality.
pub proof fn law_distance_triangle(a: Coordinate, b: Coordinate, c: Coordinate)
    ensures
        manhattan(a.dims@, c.dims@) <= manhattan(a.dims@, b.dims@) + manhattan(b.dims@, c.dims@),
{
    lemma_manhattan_triangle(a.dims@, b.dims@, c.dims@);
}

/// A neighbor of a coordinate within the extents is itself within the
/// extents and lies at distance `|delta|`.
pub proof fn law_neighbor_within(c: Coordinate, dim: int, delta: int, extents: [u8; 9])
    requires
        within(c.dims@, extents@),
        neighbor_dims(c.dims@, dim, delta, extents@) is Some,
    ensures
        within(neighbor_dims(c.dims@, dim, delta, extents@)->0, extents@),
        manhattan(c.dims@, neighbor_dims(c.dims@, dim, delta, extents@)->0) == (if delta >= 0 {
            delta
        } else {
            -delta
        }),
{
    let d = c.dims@;
    let n = d.update(dim, (d[dim] + delta) as u8);
    assert forall|i: int| 0 <= i < n.len() implies 1 <= #[trigger] n[i] <= extents@[i] by {
        if i != dim {
            assert(n[i] == d[i]);
        }
    }
    lemma_manhattan_update(d, dim, (d[dim] + delta) as u8);
}

/// Stepping back from a neighbor returns to the coordinate.
pub proof fn law_neighbor_undo(c: Coordinate, dim: int, delta: int, extents: [u8; 9])
    requires
        within(c.dims@, extents@),
        neighbor_dims(c.dims@, dim, delta, extents@) is Some,
    ensures
        neighbor_dims(neighbor_dims(c.dims@, dim, delta, extents@)->0, dim, -delta, extents@)
            == Some(c.dims@),
{
    let d = c.dims@;
    let n = d.update(dim, (d[dim] + delta) as u8);
    assert(n.update(dim, (n[dim] + (-delta)) as u8) =~= d);
}

pub proof fn lemma_von_neumann_len(dims: Seq<u8>, ext: Seq<u8>, n: int)
    requires
        0 <= n <= 9,
        within(dims, ext),
        dims.len() == 9,
    ensures
        von_neumann_dims(dims, ext, n).len() == open_sides(dims, ext, n),
    decreases n,
{
    if n > 0 {
        lemma_von_neumann_len(dims, ext, n - 1);
        assert(1 <= dims[n - 1] <= ext[n - 1]);
    }
}

/// The number of Von Neumann neighbors is the number of dimensions in
/// which a step down stays at 1 or more plus the number in which a step
/// up stays within the extent; away from every border that is 18.
pub proof fn law_von_neumann_count(c: Coordinate, extents: [u8; 9])
    requires
        within(c.dims@, extents@),
    ensures
        von_neumann_dims(c.dims@, extents@, 9).len() == open_sides(c.dims@, extents@, 9),
        (forall|i: int| 0 <= i < 9 ==> 1 < #[trigger] c.dims@[i] < extents@[i])
            ==> von_neumann_dims(c.dims@, extents@, 9).len() == 18,
{
    lemma_von_neumann_len(c.dims@, extents@, 9);
    if forall|i: int| 0 <= i < 9 ==> 1 < #[trigger] c.dims@[i] < extents@[i] {
        lemma_open_sides_interior(c.dims@, extents@, 9);
    }
}

pub proof fn lemma_open_sides_interior(dims: Seq<u8>, ext: Seq<u8>, n: int)
    requires
        0 <= n <= 9,
        forall|i: int| 0 <= i < 9 ==> 1 < #[trigger] dims[i] < ext[i],
    ensures
        open_sides(dims, ext, n) == 2 * n,
    decreases n,
{
    if n > 0 {
        lemma_open_sides_interior(dims, ext, n - 1);
        assert(1 < dims[n - 1] < ext[n - 1]);
    }
}

/// Every Von Neumann neighbor of a coordinate within the extents is
/// within the extents and at distance 1.
pub proof fn law_von_neumann_members(c: Coordinate, extents: [u8; 9], k: int)
    requires
        within(c.dims@, extents@),
        0 <= k < von_neumann_dims(c.dims@, extents@, 9).len(),
    ensures
        within(von_neumann_dims(c.dims@, extents@, 9)[k], extents@),
        manhattan(c.dims@, von_neumann_dims(c.dims@, extents@, 9)[k]) == 1,
{
    lemma_von_neumann_members(c, extents, 9, k);
}

pub proof fn lemma_von_neumann_members(c: Coordinate, extents: [u8; 9], n: int, k: int)
    requires
        0 <= n <= 9,
        within(c.dims@, extents@),
        0 <= k < von_neumann_dims(c.dims@, extents@, n).len(),
    ensures
        within(von_neumann_dims(c.dims@, extents@, n)[k], extents@),
        manhattan(c.dims@, von_neumann_dims(c.dims@, extents@, n)[k]) == 1,
    decreases n,
{
    let d = c.dims@;
    let e = extents@;
    let prev = von_neumann_dims(d, e, n - 1);
    let lo = option_to_seq(neighbor_dims(d, n - 1, -1, e));
    let hi = option_to_seq(neighbor_dims(d, n - 1, 1, e));
    assert(von_neumann_dims(d, e, n) == prev + lo + hi);
    if k < prev.len() {
        lemma_von_neumann_members(c, extents, n - 1, k);
    } else if k < prev.len() + lo.len() {
        law_neighbor_within(c, n - 1, -1, extents);
    } else {
        law_neighbor_within(c, n - 1, 1, extents);
    }
}

} // verus!
