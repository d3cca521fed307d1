//! The nine-dimensional universe: programs living at phext coordinates.
//!
//! Programs are kept in a hash map keyed by the linear index of their
//! coordinate (see `Coordinate::to_index`). A tick runs every program for
//! up to 64 steps, in the order the map hands its keys out, collecting
//! the requests they make of their neighbors; then it carries the
//! requests out in the order they were made.

use vstd::prelude::*;
use std::collections::HashMap;
use crate::coordinate::{
    Coordinate, extent_product, extents_positive, index_dims, linear_index, neighbor_dims,
    prefix_products_fit, within, law_index_roundtrip, law_neighbor_within, law_within_is_computable,
    lemma_index_dims_within, lemma_positive_product_extents,
};
use crate::program::{
    Program, ProgramView, StepResult, copy_count, is_reset, law_step_keeps_wf, program_wf,
    reset_spec, step_spec,
};
use crate::random::{DrawRecord, ThreadDraws};
use crate::tally::{seq_sum, set_sum, lemma_walk_sum, lemma_set_sum_bound, lemma_bounded_set_len};

verus! {

broadcast use vstd::std_specs::hash::group_hash_axioms;

/// A deferred request of a program to a neighbor, made at the coordinate
/// with linear index `from` (or `target`).
#[derive(Clone, Copy, Debug)]
pub enum Action {
    Copy { from: usize, dim: usize, direction: i8 },
    Write { from: usize, dim: usize, direction: i8, value: u8 },
    Read { target: usize, dim: usize, direction: i8 },
}

/// The programs of a map, each by its view.
pub open spec fn view_programs(m: Map<usize, Program>) -> Map<usize, ProgramView> {
    m.map_values(|p: Program| p@)
}

/// The linear index of the neighbor at `direction` along `dim` of the
/// coordinate with linear index `key`, if that neighbor exists.
pub open spec fn neighbor_key(key: usize, dim: usize, direction: i8, ext: Seq<u8>) -> Option<usize> {
    match neighbor_dims(index_dims(key as int, ext), dim as int, direction as int, ext) {
        Some(d) => Some(linear_index(d, ext) as usize),
        None => None,
    }
}

/// The child a replication produces.
pub open spec fn replicate_spec(p: ProgramView) -> ProgramView {
    reset_spec(ProgramView { generation: (p.generation + 1) as u64, age: 0, ..p })
}

/// Running the program at `key` for at most `fuel` steps: it stops early
/// when a step halts; every request becomes an action, in order.
pub open spec fn run_spec(p: ProgramView, fuel: nat, key: usize) -> (ProgramView, Seq<Action>)
    decreases fuel,
{
    if fuel == 0 {
        (p, Seq::<Action>::empty())
    } else {
        let (q, r) = step_spec(p);
        let (q2, rest) = run_spec(q, (fuel - 1) as nat, key);
        match r {
            StepResult::Continue => (q2, rest),
            StepResult::Halted => (q, Seq::<Action>::empty()),
            StepResult::CopySelf { dim, direction } => (
                q2,
                seq![Action::Copy { from: key, dim: dim as usize, direction }] + rest,
            ),
            StepResult::WriteNeighbor { dim, direction, value } => (
                q2,
                seq![Action::Write { from: key, dim: dim as usize, direction, value }] + rest,
            ),
            StepResult::ReadNeighbor { dim, direction } => (
                q2,
                seq![Action::Read { target: key, dim: dim as usize, direction }] + rest,
            ),
        }
    }
}

/// The first phase of a tick over the keys in `order`: each program ages
/// by one, runs 64 steps and is reset; the actions pile up in order.
pub open spec fn run_all(m: Map<usize, ProgramView>, order: Seq<usize>) -> (
    Map<usize, ProgramView>,
    Seq<Action>,
)
    decreases order.len(),
{
    if order.len() == 0 {
        (m, Seq::<Action>::empty())
    } else {
        let (m1, acts) = run_all(m, order.drop_last());
        let k = order.last();
        if m1.contains_key(k) {
            let p = ProgramView { age: (m1[k].age + 1) as u64, ..m1[k] };
            let (q, more) = run_spec(p, 64, k);
            (m1.insert(k, reset_spec(q)), acts + more)
        } else {
            (m1, acts)
        }
    }
}

/// Carrying out one action; the number is 1 for a replication, else 0.
pub open spec fn apply_action(m: Map<usize, ProgramView>, a: Action, ext: Seq<u8>) -> (
    Map<usize, ProgramView>,
    nat,
) {
    match a {
        Action::Copy { from, dim, direction } => match neighbor_key(from, dim, direction, ext) {
            Some(t) => if m.contains_key(from) {
                (m.insert(t, replicate_spec(m[from])), 1)
            } else {
                (m, 0)
            },
            None => (m, 0),
        },
        Action::Write { from, dim, direction, value } => match neighbor_key(
            from,
            dim,
            direction,
            ext,
        ) {
            Some(t) => if m.contains_key(t) {
                (
                    m.insert(
                        t,
                        ProgramView { instructions: m[t].instructions.update(0, value), ..m[t] },
                    ),
                    0,
                )
            } else {
                (m, 0)
            },
            None => (m, 0),
        },
        Action::Read { target, dim, direction } => match neighbor_key(
            target,
            dim,
            direction,
            ext,
        ) {
            Some(n) => {
                let v = if m.contains_key(n) {
                    m[n].data[0]
                } else {
                    0u8
                };
                if m.contains_key(target) {
                    (
                        m.insert(
                            target,
                            ProgramView {
                                data: m[target].data.update(m[target].dp as int, v),
                                ..m[target]
                            },
                        ),
                        0,
                    )
                } else {
                    (m, 0)
                }
            },
            None => (m, 0),
        },
    }
}

/// Carrying out the actions in order; the number counts replications.
pub open spec fn apply_actions(m: Map<usize, ProgramView>, acts: Seq<Action>, ext: Seq<u8>) -> (
    Map<usize, ProgramView>,
    nat,
)
    decreases acts.len(),
{
    if acts.len() == 0 {
        (m, 0)
    } else {
        let (m1, c1) = apply_actions(m, acts.drop_last(), ext);
        let (m2, c2) = apply_action(m1, acts.last(), ext);
        (m2, c1 + c2)
    }
}

/// The programs after a tick that visits the keys in `order`, and the
/// number of replications it made.
pub open spec fn tick_outcome(m: Map<usize, ProgramView>, order: Seq<usize>, ext: Seq<u8>) -> (
    Map<usize, ProgramView>,
    nat,
) {
    let (m1, acts) = run_all(m, order);
    apply_actions(m1, acts, ext)
}

/// `order` visits every key of `keys` once: an order in which a hash map
/// may hand out its keys.
pub open spec fn is_walk(order: Seq<usize>, keys: Set<usize>) -> bool {
    order.no_duplicates() && order.to_set() == keys
}

/// Every program sits at a coordinate within the extents and is well-formed.
pub open spec fn programs_wf(m: Map<usize, Program>, ext: Seq<u8>) -> bool {
    forall|k: usize|
        #[trigger] m.contains_key(k) ==> {
            &&& k < extent_product(ext)
            &&& program_wf(m[k]@)
        }
}

/// The linear indices of a sequence of drawn coordinates.
pub open spec fn drawn_keys(draws: Seq<Coordinate>, ext: Seq<u8>) -> Set<usize> {
    Set::new(
        |k: usize|
            exists|j: int| 0 <= j < draws.len() && linear_index(#[trigger] draws[j].dims@, ext) == k,
    )
}

/// Draw `j` of a record of coordinate draws: nine bytes, one per dimension.
pub open spec fn draw_dims(bytes: Seq<u8>, j: int) -> Seq<u8> {
    bytes.subrange(9 * j, 9 * j + 9)
}

/// The linear indices of the first `n` coordinates on a record of draws.
pub open spec fn keys_of_draws(bytes: Seq<u8>, n: int, ext: Seq<u8>) -> Set<usize> {
    Set::new(
        |k: usize| exists|j: int| 0 <= j < n && linear_index(#[trigger] draw_dims(bytes, j), ext) == k,
    )
}

/// A program as `Program::random` makes it: instructions below 16, zeroed
/// data, a fresh execution state, age and generation zero.
pub open spec fn fresh_program(p: Program) -> bool {
    &&& is_reset(p@)
    &&& p.age == 0
    &&& p.generation == 0
    &&& forall|i: int| 0 <= i < 64 ==> #[trigger] p@.data[i] == 0
    &&& forall|i: int| 0 <= i < 64 ==> #[trigger] p@.instructions[i] < 16
}

pub proof fn lemma_view_insert(m: Map<usize, Program>, k: usize, p: Program)
    ensures
        view_programs(m.insert(k, p)) == view_programs(m).insert(k, p@),
{
    assert(view_programs(m.insert(k, p)) =~= view_programs(m).insert(k, p@));
}

/// Running keeps a program well-formed, leaves its tapes' instructions,
/// age and generation alone, and makes at most one request per step.
pub proof fn lemma_run_spec(p: ProgramView, fuel: nat, key: usize)
    requires
        program_wf(p),
    ensures
        program_wf(run_spec(p, fuel, key).0),
        run_spec(p, fuel, key).0.age == p.age,
        run_spec(p, fuel, key).0.generation == p.generation,
        run_spec(p, fuel, key).0.instructions == p.instructions,
        run_spec(p, fuel, key).1.len() <= fuel,
    decreases fuel,
{
    if fuel > 0 {
        law_step_keeps_wf(p);
        lemma_run_spec(step_spec(p).0, (fuel - 1) as nat, key);
    }
}

/// The neighbor of the coordinate numbered `key` lies within the extents
/// and its number is below their product.
pub proof fn lemma_neighbor_key(key: usize, c: Coordinate, dim: usize, direction: i8, extents: [u8; 9])
    requires
        extents_positive(extents@),
        extent_product(extents@) <= usize::MAX,
        c.dims@ == index_dims(key as int, extents@),
        neighbor_dims(c.dims@, dim as int, direction as int, extents@) is Some,
    ensures
        ({
            let n = neighbor_dims(c.dims@, dim as int, direction as int, extents@)->0;
            &&& within(n, extents@)
            &&& 0 <= linear_index(n, extents@) < extent_product(extents@)
        }),
{
    lemma_index_dims_within(key as int, extents@);
    law_neighbor_within(c, dim as int, direction as int, extents);
    let n = neighbor_dims(c.dims@, dim as int, direction as int, extents@)->0;
    crate::coordinate::lemma_linear_index_bound(n, extents@);
}

/// Counts 1 for a key whose coordinate has value `v + 1` in dimension `dim`.
pub open spec fn has_digit(ext: Seq<u8>, dim: int, v: int) -> spec_fn(usize) -> int {
    |k: usize| if index_dims(k as int, ext)[dim] == v + 1 { 1int } else { 0int }
}

/// The sum of a sequence of counts.
pub open spec fn counts_total(s: Seq<usize>) -> int
    decreases s.len(),
{
    if s.len() == 0 {
        0
    } else {
        counts_total(s.drop_last()) + s.last()
    }
}

pub proof fn lemma_counts_total_increment(s: Seq<usize>, j: int)
    requires
        0 <= j < s.len(),
        s[j] < usize::MAX,
    ensures
        counts_total(s.update(j, (s[j] + 1) as usize)) == counts_total(s) + 1,
    decreases s.len(),
{
    let t = s.update(j, (s[j] + 1) as usize);
    if j == s.len() - 1 {
        assert(t.drop_last() =~= s.drop_last());
    } else {
        assert(t.drop_last() =~= s.drop_last().update(j, (s[j] + 1) as usize));
        lemma_counts_total_increment(s.drop_last(), j);
    }
}

/// The age of the program at each key.
pub open spec fn age_of(m: Map<usize, Program>) -> spec_fn(usize) -> int {
    |k: usize| m[k].age as int
}

/// Counts 1 for a key whose program holds a `CopySelf`.
pub open spec fn is_replicator(m: Map<usize, Program>) -> spec_fn(usize) -> int {
    |k: usize| if copy_count(m[k]@.instructions) > 0 { 1int } else { 0int }
}

/// Sum of three consecutive dimensions starting at `start`.
pub open spec fn digit_sum3(d: Seq<u8>, start: int) -> int {
    d[start] + d[start + 1] + d[start + 2]
}

pub open spec fn min_int(a: int, b: int) -> int {
    if a <= b {
        a
    } else {
        b
    }
}

/// The cell of a `width` by `height` grid onto which the coordinate with
/// linear index `k` projects: dimensions 0 to 2 give the column, 3 to 5
/// the row, each scaled from `0..=3 * extents[0]` and clamped to the grid.
pub open spec fn projection_cell(k: usize, ext: Seq<u8>, width: u32, height: u32) -> int {
    let d = index_dims(k as int, ext);
    let m = 3 * ext[0] + 1;
    let x = min_int(digit_sum3(d, 0) * width / m, width - 1);
    let y = min_int(digit_sum3(d, 3) * height / m, height - 1);
    y * width + x
}

/// The intensity the coordinate with linear index `k` adds to its cell:
/// dimensions 6 to 8 scaled to a byte (keeping the low eight bits), at least 50.
pub open spec fn projection_intensity(k: usize, ext: Seq<u8>) -> int {
    let d = index_dims(k as int, ext);
    let m = 3 * ext[0] + 1;
    let v = ((digit_sum3(d, 6) * 255 / m) as u8) as int;
    if v < 50 {
        50
    } else {
        v
    }
}

/// What the coordinate with linear index `k` adds to cell `c`.
pub open spec fn cell_share(ext: Seq<u8>, width: u32, height: u32, c: int) -> spec_fn(usize) -> int {
    |k: usize| if projection_cell(k, ext, width, height) == c {
        projection_intensity(k, ext)
    } else {
        0int
    }
}

/// Every program's column and row sums scale without overflow.
pub open spec fn projection_fits(keys: Set<usize>, ext: Seq<u8>, width: u32, height: u32) -> bool {
    forall|k: usize| #[trigger]
        keys.contains(k) ==> {
            &&& width >= 1
            &&& height >= 1
            &&& digit_sum3(index_dims(k as int, ext), 0) * width <= u32::MAX
            &&& digit_sum3(index_dims(k as int, ext), 3) * height <= u32::MAX
        }
}

/// The color of one projected cell, red, green, blue and alpha.
pub open spec fn cell_color(i: u8) -> Seq<u8> {
    if i > 0 {
        seq![(i * 157 / 255) as u8, (i * 78 / 255) as u8, (i * 221 / 255) as u8, 255u8]
    } else {
        seq![10u8, 10u8, 15u8, 255u8]
    }
}

/// The projected grid of a universe: each cell's summed intensity,
/// saturating at 255.
pub open spec fn projection_cells(keys: Set<usize>, ext: Seq<u8>, width: u32, height: u32) -> Seq<u8> {
    Seq::new(
        (width * height) as nat,
        |c: int| min_int(255, set_sum(keys, cell_share(ext, width, height, c))) as u8,
    )
}

/// The `(x, y, intensity)` triples of the first `n` cells of a grid
/// `width` cells wide whose intensity is not zero, row by row.
pub open spec fn occupied_triples(grid: Seq<u8>, width: int, n: int) -> Seq<u8>
    decreases n,
{
    if n <= 0 {
        Seq::<u8>::empty()
    } else {
        let c = n - 1;
        occupied_triples(grid, width, c) + if grid[c] > 0 {
            seq![(c % width) as u8, (c / width) as u8, grid[c]]
        } else {
            Seq::<u8>::empty()
        }
    }
}

/// The `(x, y, intensity)` triples of the occupied cells of a grid
/// `width` cells wide, row by row; coordinates are bytes, so the grid has
/// at most 256 columns and rows.
pub fn grid_triples(grid: &Vec<u8>, width: u32) -> (triples: Vec<u8>)
    requires
        1 <= width <= 256,
        grid@.len() <= width * 256,
    ensures
        triples@ == occupied_triples(grid@, width as int, grid@.len() as int),
        triples@.len() % 3 == 0,
{
    let mut triples: Vec<u8> = Vec::new();
    let mut c: usize = 0;
    let w = width as usize;
    while c < grid.len()
        invariant
            0 <= c <= grid@.len(),
            w == width,
            1 <= width <= 256,
            grid@.len() <= width * 256,
            triples@ == occupied_triples(grid@, width as int, c as int),
            triples@.len() % 3 == 0,
        decreases grid@.len() - c,
    {
        let v = grid[c];
        if v > 0 {
            assert(c / w < 256) by (nonlinear_arith)
                requires
                    c < w * 256,
                    w >= 1,
            ;
            let x = (c % w) as u8;
            let y = (c / w) as u8;
            triples.push(x);
            triples.push(y);
            triples.push(v);
            assert(triples@ =~= occupied_triples(grid@, width as int, c + 1));
        } else {
            assert(triples@ =~= occupied_triples(grid@, width as int, c + 1));
        }
        c = c + 1;
    }
    triples
}

/// The counts a universe reports: everything its statistics are made of
/// except the average age, which is the total age over the population.
#[derive(Clone, Copy, Debug)]
pub struct UniverseTally {
    pub tick: u64,
    pub population: usize,
    pub total_coordinates: usize,
    pub total_age: u64,
    pub max_generation: u64,
    pub replicator_count: usize,
    pub total_replications: u64,
}

/// The RGBA pixels of a projection, four bytes per cell.
pub fn colorize(projection: &Vec<u8>) -> (rgba: Vec<u8>)
    requires
        4 * projection@.len() <= usize::MAX,
    ensures
        rgba@.len() == 4 * projection@.len(),
        forall|c: int|
            0 <= c < projection@.len() ==> #[trigger] rgba@.subrange(4 * c, 4 * c + 4) == cell_color(
                projection@[c],
            ),
{
    let mut rgba: Vec<u8> = Vec::with_capacity(4 * projection.len());
    let mut i: usize = 0;
    while i < projection.len()
        invariant
            0 <= i <= projection@.len(),
            4 * projection@.len() <= usize::MAX,
            rgba@.len() == 4 * i,
            forall|c: int|
                0 <= c < i ==> #[trigger] rgba@.subrange(4 * c, 4 * c + 4) == cell_color(
                    projection@[c],
                ),
        decreases projection@.len() - i,
    {
        let intensity = projection[i];
        let ghost before = rgba@;
        if intensity > 0 {
            let r: u8 = (intensity as u16 * 157 / 255) as u8;
            let g: u8 = (intensity as u16 * 78 / 255) as u8;
            let b: u8 = (intensity as u16 * 221 / 255) as u8;
            rgba.push(r);
            rgba.push(g);
            rgba.push(b);
            rgba.push(255);
        } else {
            rgba.push(10);
            rgba.push(10);
            rgba.push(15);
            rgba.push(255);
        }
        assert(rgba@.subrange(4 * i as int, 4 * i + 4) =~= cell_color(intensity));
        assert forall|c: int| 0 <= c < i implies #[trigger] rgba@.subrange(4 * c, 4 * c + 4)
            == cell_color(projection@[c]) by {
            assert(rgba@.subrange(4 * c, 4 * c + 4) =~= before.subrange(4 * c, 4 * c + 4));
        }
        i = i + 1;
    }
    rgba
}

/// All programs of a map are equal: one program placed at several coordinates.
pub open spec fn all_same(m: Map<usize, Program>) -> bool {
    forall|j: usize, k: usize|
        #![trigger m[j], m[k]]
        m.contains_key(j) && m.contains_key(k) ==> m[j]@ == m[k]@
}

/// A copy of a program, field by field.
fn copy_program(p: &Program) -> (c: Program)
    ensures
        c@ == p@,
{
    Program {
        instructions: p.instructions,
        data: p.data,
        ip: p.ip,
        dp: p.dp,
        dim: p.dim,
        energy: p.energy,
        age: p.age,
        generation: p.generation,
    }
}

/// The extents of a universe of side `size` in every dimension, the side
/// capped at 4.
pub fn cube_extents(size: u8) -> (e: [u8; 9])
    ensures
        forall|i: int| 0 <= i < 9 ==> #[trigger] e@[i] == min_int(size as int, 4),
{
    let side: u8 = if size < 4 {
        size
    } else {
        4
    };
    [side; 9]
}

/// The 9D universe.
pub struct Universe {
    pub programs: HashMap<usize, Program>,
    pub extents: [u8; 9],
    pub tick: u64,
    pub total_replications: u64,
    pub total_extinctions: u64,
    /// The draws of the thread generator that placed the first programs.
    pub drawn: DrawRecord,
}

impl Universe {
    /// The products of the extents fit in a `usize`, and every program is
    /// well-formed at the number of a coordinate.
    pub open spec fn wf(&self) -> bool {
        &&& prefix_products_fit(self.extents@)
        &&& extent_product(self.extents@) <= usize::MAX
        &&& programs_wf(self.programs@, self.extents@)
    }

    /// No program is older than the universe, nor a later generation than
    /// the number of replications so far.
    pub open spec fn history_bounded(&self) -> bool {
        forall|k: usize| #[trigger]
            self.programs@.contains_key(k) ==> {
                &&& self.programs@[k].age <= self.tick
                &&& self.programs@[k].generation <= self.total_replications
            }
    }

    /// Every program is in the state `Program::reset` leaves it in.
    pub open spec fn all_reset(&self) -> bool {
        forall|k: usize| #[trigger]
            self.programs@.contains_key(k) ==> is_reset(self.programs@[k]@)
    }

    /// A universe at tick zero with the program `Program::random` makes at
    /// each drawn coordinate: the programs sit exactly at the drawn
    /// coordinates, a coordinate drawn twice holding one program. That
    /// generator is seeded alike on every call, so one program made once
    /// is copied to every coordinate.
    pub fn populate(extents: [u8; 9], draws: &Vec<Coordinate>) -> (u: Self)
        requires
            prefix_products_fit(extents@),
            forall|j: int| 0 <= j < draws@.len() ==> within(#[trigger] draws@[j].dims@, extents@),
        ensures
            u.wf(),
            u.history_bounded(),
            u.all_reset(),
            u.extents == extents,
            u.tick == 0,
            u.total_replications == 0,
            u.total_extinctions == 0,
            u.programs@.dom() == drawn_keys(draws@, extents@),
            forall|k: usize| #[trigger] u.programs@.contains_key(k) ==> fresh_program(u.programs@[k]),
            all_same(u.programs@),
            u.programs@.len() <= draws@.len(),
            draws@.len() > 0 ==> u.programs@.len() >= 1,
    {
        let ghost ext = extents@;
        assert(ext.take(9) =~= ext);
        assert(extent_product(ext.take(9)) <= usize::MAX);
        let mut programs: HashMap<usize, Program> = HashMap::new();
        let seed = Program::random();
        let mut i: usize = 0;
        assert(programs@.dom() =~= drawn_keys(draws@.take(0), ext));
        while i < draws.len()
            invariant
                0 <= i <= draws@.len(),
                ext == extents@,
                prefix_products_fit(ext),
                extent_product(ext) <= usize::MAX,
                forall|j: int| 0 <= j < draws@.len() ==> within(#[trigger] draws@[j].dims@, ext),
                programs@.dom().finite(),
                programs@.dom() == drawn_keys(draws@.take(i as int), ext),
                programs@.len() <= i,
                i > 0 ==> programs@.len() >= 1,
                fresh_program(seed),
                forall|k: usize| #[trigger]
                    programs@.contains_key(k) ==> k < extent_product(ext) && fresh_program(
                        programs@[k],
                    ) && programs@[k]@ == seed@,
            decreases draws@.len() - i,
        {
            let coord = draws[i];
            assert(within(draws@[i as int].dims@, ext));
            proof {
                law_within_is_computable(coord, extents);
                law_index_roundtrip(coord, extents);
            }
            let key = coord.to_index(&extents);
            if !programs.contains_key(&key) {
                programs.insert(key, copy_program(&seed));
            }
            assert(programs@.dom() =~= drawn_keys(draws@.take(i + 1), ext)) by {
                assert(draws@.take(i + 1)[i as int] == coord);
                assert forall|k: usize| #[trigger] programs@.dom().contains(k) implies drawn_keys(
                    draws@.take(i + 1),
                    ext,
                ).contains(k) by {
                    if k != key {
                        let j = choose|j: int|
                            0 <= j < i && linear_index(#[trigger] draws@.take(i as int)[j].dims@, ext)
                                == k;
                        assert(draws@.take(i + 1)[j] == draws@.take(i as int)[j]);
                    }
                }
                assert forall|k: usize| #[trigger] drawn_keys(draws@.take(i + 1), ext).contains(
                    k,
                ) implies programs@.dom().contains(k) by {
                    let j = choose|j: int|
                        0 <= j < i + 1 && linear_index(#[trigger] draws@.take(i + 1)[j].dims@, ext)
                            == k;
                    if j < i {
                        assert(draws@.take(i as int)[j] == draws@.take(i + 1)[j]);
                    }
                }
            }
            i = i + 1;
        }
        assert(draws@.take(draws@.len() as int) =~= draws@);
        assert(all_same(programs@));
        Self {
            programs,
            extents,
            tick: 0,
            total_replications: 0,
            total_extinctions: 0,
            drawn: DrawRecord::empty(),
        }
    }

    /// A universe with the given extents in which `fill_count` coordinates
    /// are drawn at random; a program made by `Program::random` is placed
    /// at each drawn coordinate.
    pub fn with_fill_count(extents: [u8; 9], fill_count: usize) -> (u: Self)
        requires
            prefix_products_fit(extents@),
            fill_count > 0 ==> extents_positive(extents@),
        ensures
            u.wf(),
            u.history_bounded(),
            u.all_reset(),
            u.extents == extents,
            u.tick == 0,
            u.total_replications == 0,
            u.total_extinctions == 0,
            exists|draws: Seq<Coordinate>|
                draws.len() == fill_count && (forall|j: int|
                    0 <= j < draws.len() ==> within(#[trigger] draws[j].dims@, extents@))
                    && u.programs@.dom() == #[trigger] drawn_keys(draws, extents@),
            forall|k: usize| #[trigger] u.programs@.contains_key(k) ==> fresh_program(u.programs@[k]),
            all_same(u.programs@),
            u.programs@.len() <= fill_count,
            fill_count > 0 ==> u.programs@.len() >= 1,
            u.drawn.drawn().len() == 9 * fill_count,
            forall|j: int|
                0 <= j < fill_count ==> within(#[trigger] draw_dims(u.drawn.drawn(), j), extents@),
            u.programs@.dom() == keys_of_draws(u.drawn.drawn(), fill_count as int, extents@),
    {
        let mut rng = ThreadDraws::new();
        let mut draws: Vec<Coordinate> = Vec::new();
        let mut n: usize = 0;
        while n < fill_count
            invariant
                0 <= n <= fill_count,
                fill_count > 0 ==> extents_positive(extents@),
                draws@.len() == n,
                forall|j: int| 0 <= j < draws@.len() ==> within(#[trigger] draws@[j].dims@, extents@),
                rng.drawn().len() == 9 * n,
                forall|j: int| 0 <= j < n ==> #[trigger] draw_dims(rng.drawn(), j) == draws@[j].dims@,
            decreases fill_count - n,
        {
            let ghost log = rng.drawn();
            let coord = Coordinate::draw(&mut rng, &extents);
            let ghost before = draws@;
            draws.push(coord);
            assert forall|j: int| 0 <= j < draws@.len() implies within(
                #[trigger] draws@[j].dims@,
                extents@,
            ) by {
                if j < n {
                    assert(draws@[j] == before[j]);
                }
            }
            assert forall|j: int| 0 <= j < n + 1 implies #[trigger] draw_dims(rng.drawn(), j)
                == draws@[j].dims@ by {
                if j < n {
                    assert(draw_dims(rng.drawn(), j) =~= draw_dims(log, j));
                    assert(draws@[j] == before[j]);
                } else {
                    assert(draw_dims(rng.drawn(), j) =~= coord.dims@);
                }
            }
            n = n + 1;
        }
        let mut u = Self::populate(extents, &draws);
        assert(draws@.len() == fill_count && u.programs@.dom() == drawn_keys(draws@, extents@));
        u.drawn = rng.record();
        let ghost bytes = u.drawn.drawn();
        assert forall|j: int| 0 <= j < fill_count implies within(
            #[trigger] draw_dims(bytes, j),
            extents@,
        ) by {
            assert(draw_dims(bytes, j) == draws@[j].dims@);
        }
        assert(u.programs@.dom() =~= keys_of_draws(bytes, fill_count as int, extents@)) by {
            assert forall|k: usize| #[trigger] u.programs@.dom().contains(k) implies keys_of_draws(
                bytes,
                fill_count as int,
                extents@,
            ).contains(k) by {
                let j = choose|j: int|
                    0 <= j < draws@.len() && linear_index(#[trigger] draws@[j].dims@, extents@) == k;
                assert(draw_dims(bytes, j) == draws@[j].dims@);
            }
            assert forall|k: usize| #[trigger] keys_of_draws(bytes, fill_count as int, extents@).contains(
                k,
            ) implies u.programs@.dom().contains(k) by {
                let j = choose|j: int|
                    0 <= j < fill_count && linear_index(#[trigger] draw_dims(bytes, j), extents@) == k;
                assert(draw_dims(bytes, j) == draws@[j].dims@);
                assert(drawn_keys(draws@, extents@).contains(k));
            }
        }
        u
    }

    /// The small universe: extent 3 in every dimension, 1968 draws (a
    /// tenth of its 19683 coordinates).
    pub fn small() -> (u: Self)
        ensures
            u.wf(),
            u.history_bounded(),
            u.all_reset(),
            u.extents@ == seq![3u8, 3u8, 3u8, 3u8, 3u8, 3u8, 3u8, 3u8, 3u8],
            u.tick == 0,
            u.total_replications == 0,
            u.total_extinctions == 0,
            1 <= u.programs@.len() <= 1968,
    {
        let extents: [u8; 9] = [3, 3, 3, 3, 3, 3, 3, 3, 3];
        assert(extents@ =~= seq![3u8, 3u8, 3u8, 3u8, 3u8, 3u8, 3u8, 3u8, 3u8]);
        proof {
            crate::coordinate::lemma_small_extents_fit(extents@);
            crate::coordinate::lemma_prefix_products_fit(extents@);
        }
        Self::with_fill_count(extents, 1968)
    }

    /// The medium universe: extents 5, 5, 5, 3, 3, 3, 2, 2, 2 and 1350
    /// draws (a twentieth of its 27000 coordinates).
    pub fn medium() -> (u: Self)
        ensures
            u.wf(),
            u.history_bounded(),
            u.all_reset(),
            u.extents@ == seq![5u8, 5u8, 5u8, 3u8, 3u8, 3u8, 2u8, 2u8, 2u8],
            u.tick == 0,
            u.total_replications == 0,
            u.total_extinctions == 0,
            1 <= u.programs@.len() <= 1350,
    {
        let extents: [u8; 9] = [5, 5, 5, 3, 3, 3, 2, 2, 2];
        assert(extents@ =~= seq![5u8, 5u8, 5u8, 3u8, 3u8, 3u8, 2u8, 2u8, 2u8]);
        proof {
            crate::coordinate::lemma_small_extents_fit(extents@);
            crate::coordinate::lemma_prefix_products_fit(extents@);
        }
        Self::with_fill_count(extents, 1350)
    }

    /// The number of coordinates: the product of the extents.
    pub fn total_coordinates(&self) -> (n: usize)
        requires
            prefix_products_fit(self.extents@),
        ensures
            n == extent_product(self.extents@),
    {
        let ghost e = self.extents@;
        let mut product: usize = 1;
        let mut i: usize = 0;
        assert(e.take(0) =~= Seq::<u8>::empty());
        while i < 9
            invariant
                0 <= i <= 9,
                e == self.extents@,
                e.len() == 9,
                prefix_products_fit(e),
                product == extent_product(e.take(i as int)),
            decreases 9 - i,
        {
            assert(e.take(i + 1).drop_last() =~= e.take(i as int));
            assert(0 <= i + 1 <= 9);
            assert(extent_product(e.take(i + 1)) <= usize::MAX);
            product = product * self.extents[i] as usize;
            i = i + 1;
        }
        assert(e.take(9) =~= e);
        product
    }

    /// The number of programs alive.
    pub fn population(&self) -> (n: usize)
        ensures
            n == self.programs@.len(),
    {
        self.programs.len()
    }

    /// Carries out one action.
    fn apply(&mut self, action: Action)
        requires
            old(self).wf(),
            old(self).all_reset(),
            extents_positive(old(self).extents@),
            old(self).total_replications < u64::MAX,
            forall|k: usize| #[trigger]
                old(self).programs@.contains_key(k) ==> old(self).programs@[k].generation
                    < u64::MAX,
        ensures
            final(self).wf(),
            final(self).all_reset(),
            final(self).extents == old(self).extents,
            final(self).tick == old(self).tick,
            final(self).total_extinctions == old(self).total_extinctions,
            final(self).total_replications >= old(self).total_replications,
            old(self).programs@.dom().subset_of(final(self).programs@.dom()),
            final(self).programs@.len() <= old(self).programs@.len() + (final(self).total_replications
                - old(self).total_replications),
            apply_action(view_programs(old(self).programs@), action, old(self).extents@) == (
                view_programs(final(self).programs@),
                (final(self).total_replications - old(self).total_replications) as nat,
            ),
    {
        let ghost m0 = self.programs@;
        match action {
            Action::Copy { from, dim, direction } => {
                let origin = Coordinate::from_index(from, &self.extents);
                if let Some(target_coord) = origin.neighbor(dim, direction, &self.extents) {
                    proof {
                        lemma_neighbor_key(from, origin, dim, direction, self.extents);
                        law_within_is_computable(target_coord, self.extents);
                    }
                    let target = target_coord.to_index(&self.extents);
                    let child = match self.programs.get(&from) {
                        Some(source) => Some(source.replicate()),
                        None => None,
                    };
                    if let Some(child) = child {
                        self.programs.insert(target, child);
                        self.total_replications = self.total_replications + 1;
                        proof {
                            lemma_view_insert(m0, target, child);
                        }
                    }
                }
            },
            Action::Write { from, dim, direction, value } => {
                let origin = Coordinate::from_index(from, &self.extents);
                if let Some(target_coord) = origin.neighbor(dim, direction, &self.extents) {
                    proof {
                        lemma_neighbor_key(from, origin, dim, direction, self.extents);
                        law_within_is_computable(target_coord, self.extents);
                    }
                    let target = target_coord.to_index(&self.extents);
                    if let Some(mut t) = self.programs.remove(&target) {
                        t.instructions[0] = value;
                        self.programs.insert(target, t);
                        proof {
                            assert(m0.remove(target).insert(target, t) =~= m0.insert(target, t));
                            lemma_view_insert(m0, target, t);
                            assert(t@.instructions =~= m0[target]@.instructions.update(0, value));
                        }
                    }
                }
            },
            Action::Read { target, dim, direction } => {
                let origin = Coordinate::from_index(target, &self.extents);
                if let Some(neighbor_coord) = origin.neighbor(dim, direction, &self.extents) {
                    proof {
                        lemma_neighbor_key(target, origin, dim, direction, self.extents);
                        law_within_is_computable(neighbor_coord, self.extents);
                    }
                    let neighbor = neighbor_coord.to_index(&self.extents);
                    let value: u8 = match self.programs.get(&neighbor) {
                        Some(n) => n.data[0],
                        None => 0,
                    };
                    if let Some(mut p) = self.programs.remove(&target) {
                        p.data[p.dp] = value;
                        self.programs.insert(target, p);
                        proof {
                            assert(m0.remove(target).insert(target, p) =~= m0.insert(target, p));
                            lemma_view_insert(m0, target, p);
                            assert(p@.data =~= m0[target]@.data.update(m0[target].dp as int, value));
                        }
                    }
                }
            },
        }
    }

    /// Runs one tick: every program ages by one and runs up to 64 steps,
    /// in the order the map hands out its keys, and is reset; then the
    /// requests the programs made are carried out in order.
    pub fn tick(&mut self)
        requires
            old(self).wf(),
            old(self).tick < u64::MAX,
            old(self).total_replications + 64 * old(self).programs@.len() <= u64::MAX,
            forall|k: usize| #[trigger]
                old(self).programs@.contains_key(k) ==> old(self).programs@[k].age < u64::MAX
                    && old(self).programs@[k].generation + 64 * old(self).programs@.len()
                    <= u64::MAX,
        ensures
            final(self).wf(),
            final(self).all_reset(),
            old(self).history_bounded() ==> final(self).history_bounded(),
            final(self).tick == old(self).tick + 1,
            final(self).extents == old(self).extents,
            final(self).total_extinctions == old(self).total_extinctions,
            final(self).total_replications >= old(self).total_replications,
            old(self).programs@.dom().subset_of(final(self).programs@.dom()),
            old(self).programs@.len() <= final(self).programs@.len() <= old(self).programs@.len() + (
            final(self).total_replications - old(self).total_replications),
            exists|order: Seq<usize>| #[trigger]
                is_walk(order, old(self).programs@.dom()) && tick_outcome(
                    view_programs(old(self).programs@),
                    order,
                    old(self).extents@,
                ) == (
                    view_programs(final(self).programs@),
                    (final(self).total_replications - old(self).total_replications) as nat,
                ),
    {
        let ghost m0 = self.programs@;
        let ghost t0 = self.tick;
        let ghost r0 = self.total_replications;
        let ghost ext = self.extents@;
        let ghost dom0 = m0.dom();
        let ghost hist = old(self).history_bounded();
        proof {
            vstd::std_specs::hash::axiom_hashmap_view_finite_dom(self.programs);
        }
        self.tick = self.tick + 1;
        let coords = self.occupied_keys();
        let mut actions: Vec<Action> = Vec::new();
        let mut i: usize = 0;
        assert(coords@.take(0) =~= Seq::<usize>::empty());
        while i < coords.len()
            invariant
                0 <= i <= coords.len(),
                is_walk(coords@, dom0),
                dom0 == m0.dom(),
                self.programs@.dom() == dom0,
                self.extents@ == ext,
                self.tick == t0 + 1,
                self.total_replications == r0,
                self.total_extinctions == old(self).total_extinctions,
                prefix_products_fit(ext),
                extent_product(ext) <= usize::MAX,
                (view_programs(self.programs@), actions@) == run_all(
                    view_programs(m0),
                    coords@.take(i as int),
                ),
                actions@.len() <= 64 * i,
                forall|k: usize| #[trigger]
                    m0.contains_key(k) ==> m0[k].age < u64::MAX,
                forall|k: usize| #[trigger]
                    self.programs@.contains_key(k) ==> {
                        &&& k < extent_product(ext)
                        &&& program_wf(self.programs@[k]@)
                        &&& self.programs@[k].generation == m0[k].generation
                        &&& if coords@.take(i as int).contains(k) {
                            is_reset(self.programs@[k]@) && self.programs@[k].age == m0[k].age + 1
                        } else {
                            self.programs@[k].age == m0[k].age
                        }
                    },
            decreases coords.len() - i,
        {
            let key = coords[i];
            let ghost before = self.programs@;
            let ghost acts_before = actions@;
            assert(coords@.take(i + 1).drop_last() =~= coords@.take(i as int));
            assert(coords@.take(i + 1).last() == key);
            assert(coords@.to_set().contains(key));
            assert(!coords@.take(i as int).contains(key)) by {
                if coords@.take(i as int).contains(key) {
                    let j = choose|j: int| 0 <= j < i && #[trigger] coords@.take(i as int)[j] == key;
                    assert(coords@[j] == coords@[i as int]);
                }
            }
            if let Some(mut program) = self.programs.remove(&key) {
                assert(before.dom().contains(key));
                assert(m0.dom().contains(key));
                program.age = program.age + 1;
                let ghost p = program@;
                proof {
                    lemma_run_spec(p, 64, key);
                }
                Self::run_program(&mut program, key, &mut actions);
                program.reset();
                self.programs.insert(key, program);
                proof {
                    assert(before.remove(key).insert(key, program) =~= before.insert(key, program));
                    lemma_view_insert(before, key, program);
                    assert(view_programs(before)[key] == before[key]@);
                    assert(p == (ProgramView { age: (before[key].age + 1) as u64, ..before[key]@ }));
                }
            }
            proof {
                assert forall|k: usize| #[trigger]
                    self.programs@.contains_key(k) implies coords@.take(i + 1).contains(k) == (
                    coords@.take(i as int).contains(k) || k == key) by {
                    if coords@.take(i + 1).contains(k) {
                        let j = choose|j: int| 0 <= j < i + 1 && #[trigger] coords@.take(i + 1)[j] == k;
                        if j < i {
                            assert(coords@.take(i as int)[j] == k);
                        }
                    }
                    if coords@.take(i as int).contains(k) {
                        let j = choose|j: int| 0 <= j < i && #[trigger] coords@.take(i as int)[j] == k;
                        assert(coords@.take(i + 1)[j] == k);
                    }
                    if k == key {
                        assert(coords@.take(i + 1)[i as int] == k);
                    }
                }
            }
            i = i + 1;
        }
        assert(coords@.take(coords.len() as int) =~= coords@);
        proof {
            coords@.unique_seq_to_set();
            assert forall|k: usize| #[trigger] self.programs@.contains_key(k) implies coords@.contains(
                k,
            ) by {
                assert(coords@.to_set().contains(k));
            }
            if actions@.len() > 0 {
                assert(coords@.len() > 0);
                assert(coords@.to_set().contains(coords@[0]));
                assert(m0.contains_key(coords@[0]));
                lemma_positive_product_extents(ext, coords@[0] as int);
            }
        }
        let ghost m1 = view_programs(self.programs@);
        let ghost len0 = dom0.len() as int;
        let mut j: usize = 0;
        assert(actions@.take(0) =~= Seq::<Action>::empty());
        while j < actions.len()
            invariant
                0 <= j <= actions.len(),
                actions@.len() <= 64 * len0,
                len0 == dom0.len(),
                r0 + 64 * len0 <= u64::MAX,
                actions@.len() == 0 || extents_positive(ext),
                self.wf(),
                self.all_reset(),
                self.extents@ == ext,
                self.tick == t0 + 1,
                self.total_extinctions == old(self).total_extinctions,
                dom0.subset_of(self.programs@.dom()),
                self.programs@.len() <= dom0.len() + (self.total_replications - r0),
                r0 <= self.total_replications <= r0 + j,
                apply_actions(m1, actions@.take(j as int), ext) == (
                    view_programs(self.programs@),
                    (self.total_replications - r0) as nat,
                ),
                forall|k: usize| #[trigger]
                    self.programs@.contains_key(k) ==> self.programs@[k].generation + 64 * len0
                        <= u64::MAX + (self.total_replications - r0),
                hist ==> forall|k: usize| #[trigger]
                    self.programs@.contains_key(k) ==> self.programs@[k].age <= t0 + 1
                        && self.programs@[k].generation <= self.total_replications,
            decreases actions.len() - j,
        {
            let a = actions[j];
            assert(actions@.take(j + 1).drop_last() =~= actions@.take(j as int));
            assert(actions@.take(j + 1).last() == a);
            let ghost before = self.programs@;
            let ghost r_before = self.total_replications;
            let ghost res = apply_action(view_programs(before), a, ext);
            proof {
                let gb = u64::MAX - 64 * len0 + (r_before - r0);
                assert forall|k: usize| #[trigger] view_programs(before).contains_key(k) implies view_programs(
                    before,
                )[k].age <= u64::MAX && view_programs(before)[k].generation <= gb by {
                    assert(before.contains_key(k));
                }
                lemma_apply_action_bounds(view_programs(before), a, ext, u64::MAX as int, gb);
                if hist {
                    assert forall|k: usize| #[trigger] view_programs(before).contains_key(k) implies view_programs(
                        before,
                    )[k].age <= t0 + 1 && view_programs(before)[k].generation <= r_before by {
                        assert(before.contains_key(k));
                    }
                    lemma_apply_action_bounds(view_programs(before), a, ext, t0 + 1, r_before as int);
                }
            }
            self.apply(a);
            proof {
                assert(res.0 == view_programs(self.programs@));
                assert(res.1 == self.total_replications - r_before);
                assert forall|k: usize| #[trigger] self.programs@.contains_key(k) implies self.programs@[k].generation
                    + 64 * len0 <= u64::MAX + (self.total_replications - r0) by {
                    assert(res.0.contains_key(k));
                    assert(res.0[k] == self.programs@[k]@);
                }
                if hist {
                    assert forall|k: usize| #[trigger] self.programs@.contains_key(k) implies self.programs@[k].age
                        <= t0 + 1 && self.programs@[k].generation <= self.total_replications by {
                        assert(res.0.contains_key(k));
                        assert(res.0[k] == self.programs@[k]@);
                    }
                }
            }
            j = j + 1;
        }
        assert(actions@.take(actions.len() as int) =~= actions@);
        assert(is_walk(coords@, dom0));
        proof {
            vstd::set_lib::lemma_len_subset(dom0, self.programs@.dom());
        }
    }

    /// How many programs sit at each value `1..=extents[dim]` of dimension
    /// `dim` (the count for value `v + 1` at position `v`).
    pub fn dimensional_density(&self, dim: usize) -> (density: Vec<usize>)
        requires
            self.wf(),
            dim < 9,
        ensures
            density@.len() == self.extents@[dim as int],
            forall|v: int|
                0 <= v < density@.len() ==> #[trigger] density@[v] == set_sum(
                    self.programs@.dom(),
                    has_digit(self.extents@, dim as int, v),
                ),
            counts_total(density@) == self.programs@.len(),
    {
        let ghost ext = self.extents@;
        let n = self.extents[dim] as usize;
        let mut density: Vec<usize> = Vec::new();
        let mut z: usize = 0;
        while z < n
            invariant
                0 <= z <= n,
                density@.len() == z,
                forall|v: int| 0 <= v < z ==> #[trigger] density@[v] == 0,
                counts_total(density@) == 0,
            decreases n - z,
        {
            let ghost old_density = density@;
            density.push(0);
            assert(density@.drop_last() =~= old_density);
            z = z + 1;
        }
        let keys = self.occupied_keys();
        let mut i: usize = 0;
        assert(keys@.take(0) =~= Seq::<usize>::empty());
        while i < keys.len()
            invariant
                0 <= i <= keys.len(),
                self.wf(),
                is_walk(keys@, self.programs@.dom()),
                dim < 9,
                ext == self.extents@,
                n == ext[dim as int],
                density@.len() == n,
                forall|v: int|
                    0 <= v < n ==> #[trigger] density@[v] == seq_sum(
                        keys@.take(i as int),
                        has_digit(ext, dim as int, v),
                    ),
                forall|v: int| 0 <= v < n ==> #[trigger] density@[v] <= i,
                counts_total(density@) == i,
            decreases keys.len() - i,
        {
            let k = keys[i];
            proof {
                assert(keys@.to_set().contains(k));
                assert(self.programs@.contains_key(k));
                lemma_positive_product_extents(ext, k as int);
                lemma_index_dims_within(k as int, ext);
            }
            let coord = Coordinate::from_index(k, &self.extents);
            let d = coord.dims[dim] as usize;
            assert(1 <= d <= n);
            let ghost before = density@;
            proof {
                lemma_counts_total_increment(before, d - 1);
            }
            density[d - 1] = density[d - 1] + 1;
            assert(keys@.take(i + 1).drop_last() =~= keys@.take(i as int));
            assert(keys@.take(i + 1).last() == k);
            assert forall|v: int| 0 <= v < n implies #[trigger] density@[v] == seq_sum(
                keys@.take(i + 1),
                has_digit(ext, dim as int, v),
            ) by {
                let f = has_digit(ext, dim as int, v);
                assert(f(k) == if v == d - 1 { 1int } else { 0int });
            }
            i = i + 1;
        }
        assert(keys@.take(keys.len() as int) =~= keys@);
        proof {
            keys@.unique_seq_to_set();
            assert forall|v: int| 0 <= v < n implies #[trigger] density@[v] == set_sum(
                self.programs@.dom(),
                has_digit(ext, dim as int, v),
            ) by {
                lemma_walk_sum(keys@, has_digit(ext, dim as int, v));
            }
        }
        density
    }

    /// The density along dimension `dim` (see `dimensional_density`), or
    /// nothing when `dim` names no dimension.
    pub fn density(&self, dim: usize) -> (density: Vec<usize>)
        requires
            self.wf(),
        ensures
            dim >= 9 ==> density@.len() == 0,
            dim < 9 ==> density@.len() == self.extents@[dim as int],
            dim < 9 ==> forall|v: int|
                0 <= v < density@.len() ==> #[trigger] density@[v] == set_sum(
                    self.programs@.dom(),
                    has_digit(self.extents@, dim as int, v),
                ),
    {
        if dim < 9 {
            self.dimensional_density(dim)
        } else {
            Vec::new()
        }
    }

    /// The counts behind the universe's statistics.
    pub fn tally(&self) -> (t: UniverseTally)
        requires
            self.wf(),
            set_sum(self.programs@.dom(), age_of(self.programs@)) <= u64::MAX,
        ensures
            t.tick == self.tick,
            t.population == self.programs@.len(),
            t.total_coordinates == extent_product(self.extents@),
            t.total_age == set_sum(self.programs@.dom(), age_of(self.programs@)),
            t.replicator_count == set_sum(self.programs@.dom(), is_replicator(self.programs@)),
            t.total_replications == self.total_replications,
            forall|k: usize| #[trigger]
                self.programs@.contains_key(k) ==> self.programs@[k].generation
                    <= t.max_generation,
            self.programs@.len() == 0 ==> t.max_generation == 0,
            self.programs@.len() > 0 ==> exists|k: usize| #[trigger]
                self.programs@.contains_key(k) && self.programs@[k].generation
                    == t.max_generation,
    {
        let ghost m = self.programs@;
        let keys = self.occupied_keys();
        proof {
            keys@.unique_seq_to_set();
            lemma_walk_sum(keys@, age_of(m));
            lemma_walk_sum(keys@, is_replicator(m));
        }
        let mut total_age: u64 = 0;
        let mut max_generation: u64 = 0;
        let mut replicator_count: usize = 0;
        let mut i: usize = 0;
        assert(keys@.take(0) =~= Seq::<usize>::empty());
        while i < keys.len()
            invariant
                0 <= i <= keys.len(),
                m == self.programs@,
                is_walk(keys@, m.dom()),
                keys@.len() == m.dom().len(),
                seq_sum(keys@, age_of(m)) <= u64::MAX,
                total_age == seq_sum(keys@.take(i as int), age_of(m)),
                replicator_count == seq_sum(keys@.take(i as int), is_replicator(m)),
                replicator_count <= i,
                forall|j: int| 0 <= j < i ==> m[#[trigger] keys@[j]].generation <= max_generation,
                i == 0 ==> max_generation == 0,
                i > 0 ==> exists|j: int| 0 <= j < i && m[#[trigger] keys@[j]].generation
                    == max_generation,
            decreases keys.len() - i,
        {
            let k = keys[i];
            assert(keys@.to_set().contains(k));
            let program = self.programs.get(&k).unwrap();
            assert(keys@.take(i + 1).drop_last() =~= keys@.take(i as int));
            assert(keys@.take(i + 1).last() == k);
            proof {
                crate::tally::lemma_seq_sum_prefix_le(keys@, age_of(m), i + 1);
            }
            total_age = total_age + program.age;
            if program.generation > max_generation {
                max_generation = program.generation;
            }
            if program.replicator_score() > 0 {
                replicator_count = replicator_count + 1;
            }
            assert(m[keys@[i as int]].generation <= max_generation);
            i = i + 1;
        }
        assert(keys@.take(keys.len() as int) =~= keys@);
        proof {
            if m.dom().len() > 0 {
                let j = choose|j: int| 0 <= j < keys@.len() && m[#[trigger] keys@[j]].generation
                    == max_generation;
                assert(keys@.to_set().contains(keys@[j]));
            }
            assert forall|k: usize| #[trigger] m.contains_key(k) implies m[k].generation
                <= max_generation by {
                assert(keys@.to_set().contains(k));
                let j = choose|j: int| 0 <= j < keys@.len() && #[trigger] keys@[j] == k;
            }
        }
        let population = self.population();
        let total_coordinates = self.total_coordinates();
        UniverseTally {
            tick: self.tick,
            population,
            total_coordinates,
            total_age,
            max_generation,
            replicator_count,
            total_replications: self.total_replications,
        }
    }

    /// Projects the universe onto a `width` by `height` grid: each program
    /// adds its intensity to its cell, saturating at 255.
    pub fn projection_grid(&self, width: u32, height: u32) -> (grid: Vec<u8>)
        requires
            self.wf(),
            width * height <= u32::MAX,
            projection_fits(self.programs@.dom(), self.extents@, width, height),
        ensures
            grid@.len() == width * height,
            forall|c: int|
                0 <= c < grid@.len() ==> #[trigger] grid@[c] == min_int(
                    255,
                    set_sum(self.programs@.dom(), cell_share(self.extents@, width, height, c)),
                ),
    {
        let ghost ext = self.extents@;
        let ghost dom = self.programs@.dom();
        let cells: usize = (width * height) as usize;
        let mut grid: Vec<u8> = Vec::new();
        let mut z: usize = 0;
        while z < cells
            invariant
                0 <= z <= cells,
                grid@.len() == z,
                forall|c: int| 0 <= c < z ==> #[trigger] grid@[c] == 0,
            decreases cells - z,
        {
            grid.push(0);
            z = z + 1;
        }
        let keys = self.occupied_keys();
        proof {
            keys@.unique_seq_to_set();
        }
        let max_sum: u32 = self.extents[0] as u32 * 3;
        let mut i: usize = 0;
        assert(keys@.take(0) =~= Seq::<usize>::empty());
        while i < keys.len()
            invariant
                0 <= i <= keys.len(),
                self.wf(),
                ext == self.extents@,
                dom == self.programs@.dom(),
                is_walk(keys@, dom),
                max_sum == 3 * ext[0],
                width * height <= u32::MAX,
                cells == width * height,
                projection_fits(dom, ext, width, height),
                grid@.len() == cells,
                forall|c: int|
                    0 <= c < cells ==> #[trigger] grid@[c] == min_int(
                        255,
                        seq_sum(keys@.take(i as int), cell_share(ext, width, height, c)),
                    ),
                forall|c: int|
                    0 <= c < cells ==> seq_sum(
                        keys@.take(i as int),
                        #[trigger] cell_share(ext, width, height, c),
                    ) >= 0,
            decreases keys.len() - i,
        {
            let k = keys[i];
            assert(keys@.to_set().contains(k));
            proof {
                assert(self.programs@.contains_key(k));
                lemma_positive_product_extents(ext, k as int);
            }
            let coord = Coordinate::from_index(k, &self.extents);
            let ghost d = coord.dims@;
            let x_sum: u32 = coord.dims[0] as u32 + coord.dims[1] as u32 + coord.dims[2] as u32;
            let y_sum: u32 = coord.dims[3] as u32 + coord.dims[4] as u32 + coord.dims[5] as u32;
            let z_sum: u32 = coord.dims[6] as u32 + coord.dims[7] as u32 + coord.dims[8] as u32;
            assert(x_sum == digit_sum3(d, 0) && y_sum == digit_sum3(d, 3) && z_sum == digit_sum3(d, 6));
            let x_scaled: u32 = x_sum * width / (max_sum + 1);
            let x: u32 = if x_scaled < width - 1 {
                x_scaled
            } else {
                width - 1
            };
            let y_scaled: u32 = y_sum * height / (max_sum + 1);
            let y: u32 = if y_scaled < height - 1 {
                y_scaled
            } else {
                height - 1
            };
            assert(y * width + x < width * height) by (nonlinear_arith)
                requires
                    x < width,
                    y < height,
            ;
            let idx: usize = (y * width + x) as usize;
            let raw: u8 = (z_sum * 255 / (max_sum + 1)) as u8;
            let intensity: u8 = if raw < 50 {
                50
            } else {
                raw
            };
            assert(idx == projection_cell(k, ext, width, height));
            assert(intensity == projection_intensity(k, ext));
            let old_cell = grid[idx];
            grid[idx] = old_cell.saturating_add(intensity);
            assert(keys@.take(i + 1).drop_last() =~= keys@.take(i as int));
            assert(keys@.take(i + 1).last() == k);
            assert forall|c: int| 0 <= c < cells implies #[trigger] grid@[c] == min_int(
                255,
                seq_sum(keys@.take(i + 1), cell_share(ext, width, height, c)),
            ) && seq_sum(keys@.take(i + 1), cell_share(ext, width, height, c)) >= 0 by {
                let f = cell_share(ext, width, height, c);
                assert(f(k) == if c == idx { intensity as int } else { 0int });
            }
            i = i + 1;
        }
        assert(keys@.take(keys.len() as int) =~= keys@);
        proof {
            assert forall|c: int| 0 <= c < cells implies #[trigger] grid@[c] == min_int(
                255,
                set_sum(dom, cell_share(ext, width, height, c)),
            ) by {
                lemma_walk_sum(keys@, cell_share(ext, width, height, c));
            }
        }
        grid
    }

    /// The occupied cells of the projection onto a `width` by `height`
    /// grid, as a flat array of `(x, y, intensity)` triples, row by row.
    pub fn projection_2d(&self, width: u32, height: u32) -> (triples: Vec<u8>)
        requires
            self.wf(),
            width * height <= u32::MAX,
            width <= 256,
            height <= 256,
            projection_fits(self.programs@.dom(), self.extents@, width, height),
        ensures
            triples@ == occupied_triples(
                projection_cells(self.programs@.dom(), self.extents@, width, height),
                width as int,
                width * height,
            ),
            triples@.len() % 3 == 0,
    {
        let grid = self.projection_grid(width, height);
        assert(grid@ =~= projection_cells(self.programs@.dom(), self.extents@, width, height));
        if width == 0 {
            assert(width * height == 0);
            assert(occupied_triples(grid@, 0, 0) =~= Seq::<u8>::empty());
            return Vec::new();
        }
        assert(width * height <= width * 256) by (nonlinear_arith)
            requires
                height <= 256,
        ;
        grid_triples(&grid, width)
    }

    /// The projection as RGBA pixels: occupied cells in a purple scaled by
    /// their intensity, empty cells dark.
    pub fn render_rgba(&self, width: u32, height: u32) -> (rgba: Vec<u8>)
        requires
            self.wf(),
            width * height * 4 <= u32::MAX,
            projection_fits(self.programs@.dom(), self.extents@, width, height),
        ensures
            rgba@.len() == 4 * width * height,
            forall|c: int|
                0 <= c < width * height ==> #[trigger] rgba@.subrange(4 * c, 4 * c + 4)
                    == cell_color(
                    min_int(
                        255,
                        set_sum(self.programs@.dom(), cell_share(self.extents@, width, height, c)),
                    ) as u8,
                ),
    {
        assert(width * height <= u32::MAX && 4 * width * height == 4 * (width * height)) by (nonlinear_arith)
            requires
                width * height * 4 <= u32::MAX,
        ;
        let projection = self.projection_grid(width, height);
        let rgba = colorize(&projection);
        assert forall|c: int| 0 <= c < width * height implies #[trigger] rgba@.subrange(
            4 * c,
            4 * c + 4,
        ) == cell_color(
            min_int(
                255,
                set_sum(self.programs@.dom(), cell_share(self.extents@, width, height, c)),
            ) as u8,
        ) by {
            assert(rgba@.subrange(4 * c, 4 * c + 4) == cell_color(projection@[c]));
        }
        rgba
    }

    /// The keys of the map, in the order the map hands them out.
    fn occupied_keys(&self) -> (r: Vec<usize>)
        ensures
            is_walk(r@, self.programs@.dom()),
    {
        let mut v: Vec<usize> = Vec::new();
        for k in it: self.programs.keys()
            invariant
                it.seq().unref().no_duplicates(),
                it.seq().unref().to_set() == self.programs@.dom(),
                v@ == it.seq().unref().take(it.index() as int),
                it.index() == it.seq().len() ==> v@ == it.seq().unref(),
        {
            v.push(*k);
        }
        v
    }

    /// Runs `program`, which sits at `key`, for up to 64 steps and appends
    /// its requests to `actions`.
    fn run_program(program: &mut Program, key: usize, actions: &mut Vec<Action>)
        requires
            program_wf(old(program)@),
        ensures
            final(program)@ == run_spec(old(program)@, 64, key).0,
            final(actions)@ == old(actions)@ + run_spec(old(program)@, 64, key).1,
    {
        let ghost p0 = program@;
        let ghost a0 = actions@;
        let mut s: usize = 0;
        assert(a0 + run_spec(p0, 64, key).1 == actions@ + run_spec(program@, 64, key).1);
        while s < 64
            invariant_except_break
                0 <= s <= 64,
                program_wf(program@),
                run_spec(p0, 64, key).0 == run_spec(program@, (64 - s) as nat, key).0,
                a0 + run_spec(p0, 64, key).1 == actions@ + run_spec(program@, (64 - s) as nat, key).1,
            ensures
                program@ == run_spec(p0, 64, key).0,
                actions@ == a0 + run_spec(p0, 64, key).1,
            decreases 64 - s,
        {
            let ghost before = program@;
            let ghost acts_before = actions@;
            proof {
                law_step_keeps_wf(before);
            }
            let result = program.step();
            let ghost fuel = (64 - s - 1) as nat;
            match result {
                StepResult::Continue => {},
                StepResult::Halted => {
                    assert(actions@ =~= acts_before + Seq::<Action>::empty());
                    break ;
                },
                StepResult::CopySelf { dim, direction } => {
                    actions.push(Action::Copy { from: key, dim: dim as usize, direction });
                    assert(acts_before + (seq![Action::Copy { from: key, dim: dim as usize, direction }]
                        + run_spec(program@, fuel, key).1) =~= actions@ + run_spec(
                        program@,
                        fuel,
                        key,
                    ).1);
                },
                StepResult::WriteNeighbor { dim, direction, value } => {
                    actions.push(Action::Write { from: key, dim: dim as usize, direction, value });
                    assert(acts_before + (seq![
                        Action::Write { from: key, dim: dim as usize, direction, value },
                    ] + run_spec(program@, fuel, key).1) =~= actions@ + run_spec(
                        program@,
                        fuel,
                        key,
                    ).1);
                },
                StepResult::ReadNeighbor { dim, direction } => {
                    actions.push(Action::Read { target: key, dim: dim as usize, direction });
                    assert(acts_before + (seq![Action::Read { target: key, dim: dim as usize, direction }]
                        + run_spec(program@, fuel, key).1) =~= actions@ + run_spec(
                        program@,
                        fuel,
                        key,
                    ).1);
                },
            }
            s = s + 1;
        }
    }
}

/// Carrying out an action keeps every age within a bound that held before,
/// and lifts generations by at most the number of replications it makes.
pub proof fn lemma_apply_action_bounds(
    m: Map<usize, ProgramView>,
    a: Action,
    ext: Seq<u8>,
    age_bound: int,
    gen_bound: int,
)
    requires
        0 <= age_bound,
        gen_bound < u64::MAX,
        forall|k: usize| #[trigger]
            m.contains_key(k) ==> m[k].age <= age_bound && m[k].generation <= gen_bound,
    ensures
        forall|k: usize| #[trigger]
            apply_action(m, a, ext).0.contains_key(k) ==> apply_action(m, a, ext).0[k].age
                <= age_bound && apply_action(m, a, ext).0[k].generation <= gen_bound + apply_action(
                m,
                a,
                ext,
            ).1,
{
}

/// A copy request from the program at coordinate `c` along `dim` places a
/// replica of it at the neighbor, whether or not the neighbor was
/// occupied: the same tapes, the next generation, age zero and a fresh
/// execution state. It counts one replication and leaves every other
/// coordinate as it was.
pub proof fn law_copy_replaces_neighbor(
    m: Map<usize, ProgramView>,
    c: Coordinate,
    dim: usize,
    direction: i8,
    extents: [u8; 9],
)
    requires
        within(c.dims@, extents@),
        extent_product(extents@) <= usize::MAX,
        m.contains_key(linear_index(c.dims@, extents@) as usize),
        m[linear_index(c.dims@, extents@) as usize].generation < u64::MAX,
        neighbor_dims(c.dims@, dim as int, direction as int, extents@) is Some,
    ensures
        ({
            let ext = extents@;
            let from = linear_index(c.dims@, ext) as usize;
            let t = linear_index(neighbor_dims(c.dims@, dim as int, direction as int, ext)->0, ext) as usize;
            let r = apply_action(m, Action::Copy { from, dim, direction }, ext);
            &&& r.1 == 1
            &&& r.0.dom() == m.dom().insert(t)
            &&& r.0[t].instructions == m[from].instructions
            &&& r.0[t].data == m[from].data
            &&& r.0[t].generation == m[from].generation + 1
            &&& r.0[t].age == 0
            &&& r.0[t].ip == 0 && r.0[t].dp == 0 && r.0[t].dim == 0
            &&& r.0[t].energy == crate::program::max_steps()
            &&& forall|k: usize| #[trigger] m.contains_key(k) && k != t ==> r.0[k] == m[k]
        }),
{
    let ext = extents@;
    law_index_roundtrip(c, extents);
    let n = neighbor_dims(c.dims@, dim as int, direction as int, ext)->0;
    law_neighbor_within(c, dim as int, direction as int, extents);
    crate::coordinate::lemma_linear_index_bound(n, ext);
    let from = linear_index(c.dims@, ext) as usize;
    let t = linear_index(n, ext) as usize;
    assert(from as int == linear_index(c.dims@, ext));
    assert(index_dims(from as int, ext) == c.dims@);
    assert(neighbor_key(from, dim, direction, ext) == Some(t));
    let r = apply_action(m, Action::Copy { from, dim, direction }, ext);
    assert(r.0 == m.insert(t, replicate_spec(m[from])));
    assert(r.0.dom() =~= m.dom().insert(t));
}

/// A write request from coordinate `c` along `dim` sets the first
/// instruction of the program at the neighbor to `value` and changes
/// nothing else; with no program there it changes nothing. It never
/// counts as a replication.
pub proof fn law_write_sets_neighbor_instruction(
    m: Map<usize, ProgramView>,
    c: Coordinate,
    dim: usize,
    direction: i8,
    value: u8,
    extents: [u8; 9],
)
    requires
        within(c.dims@, extents@),
        extent_product(extents@) <= usize::MAX,
        neighbor_dims(c.dims@, dim as int, direction as int, extents@) is Some,
    ensures
        ({
            let ext = extents@;
            let from = linear_index(c.dims@, ext) as usize;
            let t = linear_index(neighbor_dims(c.dims@, dim as int, direction as int, ext)->0, ext) as usize;
            let r = apply_action(m, Action::Write { from, dim, direction, value }, ext);
            &&& r.1 == 0
            &&& r.0.dom() == m.dom()
            &&& m.contains_key(t) ==> r.0[t] == (ProgramView {
                instructions: m[t].instructions.update(0, value),
                ..m[t]
            })
            &&& forall|k: usize| #[trigger] m.contains_key(k) && k != t ==> r.0[k] == m[k]
        }),
{
    let ext = extents@;
    law_index_roundtrip(c, extents);
    let n = neighbor_dims(c.dims@, dim as int, direction as int, ext)->0;
    law_neighbor_within(c, dim as int, direction as int, extents);
    crate::coordinate::lemma_linear_index_bound(n, ext);
    let from = linear_index(c.dims@, ext) as usize;
    let t = linear_index(n, ext) as usize;
    assert(index_dims(from as int, ext) == c.dims@);
    assert(neighbor_key(from, dim, direction, ext) == Some(t));
    let r = apply_action(m, Action::Write { from, dim, direction, value }, ext);
    assert(r.0.dom() =~= m.dom());
}

/// A read request of the program at coordinate `c` along `dim` stores the
/// first data cell of the program at the neighbor (0 when there is none)
/// in its own data cell under its data pointer, and changes nothing else.
/// It never counts as a replication.
pub proof fn law_read_takes_neighbor_data(
    m: Map<usize, ProgramView>,
    c: Coordinate,
    dim: usize,
    direction: i8,
    extents: [u8; 9],
)
    requires
        within(c.dims@, extents@),
        extent_product(extents@) <= usize::MAX,
        m.contains_key(linear_index(c.dims@, extents@) as usize),
        neighbor_dims(c.dims@, dim as int, direction as int, extents@) is Some,
    ensures
        ({
            let ext = extents@;
            let target = linear_index(c.dims@, ext) as usize;
            let n = linear_index(neighbor_dims(c.dims@, dim as int, direction as int, ext)->0, ext) as usize;
            let r = apply_action(m, Action::Read { target, dim, direction }, ext);
            let v = if m.contains_key(n) {
                m[n].data[0]
            } else {
                0u8
            };
            &&& r.1 == 0
            &&& r.0.dom() == m.dom()
            &&& r.0[target] == (ProgramView {
                data: m[target].data.update(m[target].dp as int, v),
                ..m[target]
            })
            &&& forall|k: usize| #[trigger] m.contains_key(k) && k != target ==> r.0[k] == m[k]
        }),
{
    let ext = extents@;
    law_index_roundtrip(c, extents);
    let nd = neighbor_dims(c.dims@, dim as int, direction as int, ext)->0;
    law_neighbor_within(c, dim as int, direction as int, extents);
    crate::coordinate::lemma_linear_index_bound(nd, ext);
    let target = linear_index(c.dims@, ext) as usize;
    let n = linear_index(nd, ext) as usize;
    assert(index_dims(target as int, ext) == c.dims@);
    assert(neighbor_key(target, dim, direction, ext) == Some(n));
    let r = apply_action(m, Action::Read { target, dim, direction }, ext);
    assert(r.0.dom() =~= m.dom());
}

/// Each coordinate on a record of draws within the extents places a
/// program at its own number, and two different coordinates drawn place
/// two different programs: the programs placed are one per distinct
/// coordinate drawn.
pub proof fn law_draws_place_programs(bytes: Seq<u8>, n: int, extents: [u8; 9], i: int, j: int)
    requires
        0 <= i < n,
        0 <= j < n,
        extent_product(extents@) <= usize::MAX,
        forall|k: int| 0 <= k < n ==> within(#[trigger] draw_dims(bytes, k), extents@),
    ensures
        keys_of_draws(bytes, n, extents@).contains(
            linear_index(draw_dims(bytes, i), extents@) as usize,
        ),
        draw_dims(bytes, i) != draw_dims(bytes, j) ==> linear_index(draw_dims(bytes, i), extents@)
            as usize != linear_index(draw_dims(bytes, j), extents@) as usize,
{
    let ext = extents@;
    let a = draw_dims(bytes, i);
    let b = draw_dims(bytes, j);
    assert(within(a, ext) && within(b, ext));
    crate::coordinate::lemma_linear_index_bound(a, ext);
    crate::coordinate::lemma_linear_index_bound(b, ext);
    crate::coordinate::lemma_index_dims_of_linear_index(a, ext);
    crate::coordinate::lemma_index_dims_of_linear_index(b, ext);
    assert(keys_of_draws(bytes, n, ext).contains(linear_index(a, ext) as usize));
}

proof fn lemma_run_all(m: Map<usize, ProgramView>, order: Seq<usize>)
    requires
        order.no_duplicates(),
        forall|j: int| 0 <= j < order.len() ==> m.contains_key(#[trigger] order[j]),
        forall|k: usize| #[trigger]
            m.contains_key(k) ==> program_wf(m[k]) && m[k].age < u64::MAX,
    ensures
        run_all(m, order).0.dom() == m.dom(),
        run_all(m, order).1.len() <= 64 * order.len(),
        forall|k: usize| #[trigger]
            m.contains_key(k) ==> if order.contains(k) {
                let p = run_all(m, order).0[k];
                &&& p.age == m[k].age + 1
                &&& p.generation == m[k].generation
                &&& p.instructions == m[k].instructions
                &&& is_reset(p)
            } else {
                run_all(m, order).0[k] == m[k]
            },
    decreases order.len(),
{
    if order.len() == 0 {
    } else {
        let prefix = order.drop_last();
        let k0 = order.last();
        assert(prefix.no_duplicates()) by {
            assert forall|i: int, j: int|
                0 <= i < prefix.len() && 0 <= j < prefix.len() && i != j implies prefix[i]
                != prefix[j] by {
                assert(prefix[i] == order[i] && prefix[j] == order[j]);
            }
        }
        assert forall|j: int| 0 <= j < prefix.len() implies m.contains_key(#[trigger] prefix[j]) by {
            assert(prefix[j] == order[j]);
        }
        lemma_run_all(m, prefix);
        assert(m.contains_key(k0)) by {
            assert(order[order.len() - 1] == k0);
        }
        assert(!prefix.contains(k0)) by {
            if prefix.contains(k0) {
                let i = choose|i: int| 0 <= i < prefix.len() && prefix[i] == k0;
                assert(order[i] == order[order.len() - 1]);
            }
        }
        let m1 = run_all(m, prefix).0;
        let p = ProgramView { age: (m1[k0].age + 1) as u64, ..m1[k0] };
        lemma_run_spec(p, 64, k0);
        assert forall|k: usize| #[trigger] m.contains_key(k) implies order.contains(k) == (
        prefix.contains(k) || k == k0) by {
            if order.contains(k) {
                let i = choose|i: int| 0 <= i < order.len() && order[i] == k;
                if i < order.len() - 1 {
                    assert(prefix[i] == k);
                }
            }
            if prefix.contains(k) {
                let i = choose|i: int| 0 <= i < prefix.len() && prefix[i] == k;
                assert(order[i] == k);
            }
            if k == k0 {
                assert(order[order.len() - 1] == k);
            }
        }
        assert(run_all(m, order).0.dom() =~= m.dom());
    }
}

/// In the first phase of a tick, over any order that visits each program
/// once, every program ages by exactly one, keeps its instructions and its
/// generation, ends in a fresh execution state, and makes at most 64
/// requests; no program appears or disappears.
pub proof fn law_run_phase(m: Map<usize, ProgramView>, order: Seq<usize>)
    requires
        is_walk(order, m.dom()),
        forall|k: usize| #[trigger]
            m.contains_key(k) ==> program_wf(m[k]) && m[k].age < u64::MAX,
    ensures
        run_all(m, order).0.dom() == m.dom(),
        run_all(m, order).1.len() <= 64 * m.dom().len(),
        forall|k: usize| #[trigger]
            m.contains_key(k) ==> {
                let p = run_all(m, order).0[k];
                &&& p.age == m[k].age + 1
                &&& p.generation == m[k].generation
                &&& p.instructions == m[k].instructions
                &&& is_reset(p)
            },
{
    assert forall|j: int| 0 <= j < order.len() implies m.contains_key(#[trigger] order[j]) by {
        assert(order.to_set().contains(order[j]));
    }
    order.unique_seq_to_set();
    lemma_run_all(m, order);
    assert forall|k: usize| #[trigger] m.contains_key(k) implies order.contains(k) by {
        assert(order.to_set().contains(k));
    }
}

/// A well-formed universe holds at most as many programs as it has
/// coordinates.
pub proof fn law_population_bounded(u: Universe)
    requires
        u.wf(),
    ensures
        u.programs@.len() <= extent_product(u.extents@),
{
    vstd::std_specs::hash::axiom_hashmap_view_finite_dom(u.programs);
    crate::coordinate::lemma_extent_product_nonneg(u.extents@);
    assert forall|k: usize| #[trigger] u.programs@.dom().contains(k) implies k < extent_product(
        u.extents@,
    ) by {
        assert(u.programs@.contains_key(k));
    }
    lemma_bounded_set_len(u.programs@.dom(), extent_product(u.extents@) as nat);
}

/// In a well-formed universe no program is older than the universe, so
/// the ages add up to at most the population times the tick.
pub proof fn law_age_total_bound(u: Universe)
    requires
        u.wf(),
        u.history_bounded(),
    ensures
        0 <= set_sum(u.programs@.dom(), age_of(u.programs@)) <= u.tick * u.programs@.len(),
{
    lemma_set_sum_bound(u.programs@.dom(), age_of(u.programs@), u.tick as int);
}

} // verus!
