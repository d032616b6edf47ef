//! The simulation on the processor.
use vstd::prelude::*;
use rand::Rng;
use crate::grid::{
    checked_pow, choices_of, moved,
    direction, lemma_neighbour_parts, lemma_npow_small, neighbour_index, npow, shift, step_relation,
    step_with, valid_choices,
};
use crate::simulation::SimulationDevice;

verus! {

#[verifier::external_type_specification]
#[verifier::external_body]
pub struct ExThreadRng(rand::rngs::ThreadRng);

/// Calls `rand::rng`, which hands out the random generator of the current thread.
/// Nothing is claimed of it.
#[verifier::external_body]
fn thread_rng() -> rand::rngs::ThreadRng {
    rand::rng()
}

/// Calls `Rng::random_range` on `0..bound`. The claim is only that the number drawn is
/// below `bound`; which one it is depends on the generator. `random_range` panics on an
/// empty range, so `bound` must be positive.
#[verifier::external_body]
fn random_below(rng: &mut rand::rngs::ThreadRng, bound: usize) -> (r: usize)
    requires
        bound > 0,
    ensures
        r < bound,
{
    rng.random_range(0..bound)
}

/// The simulation on the processor: the grid, a second buffer that the next grid is
/// written to, and the direction vectors of the `2d` neighbours.
pub struct SimulatorCPU {
    pub tab: Vec<u8>,
    background_buffer: Vec<u8>,
    neighbours_coords: Vec<Vec<u8>>,  // 0 : 0  ;  1 : +1  ;  2: -1
    rng: rand::rngs::ThreadRng,
    n: u32,
    d: u8,
    /// Every number the generator has handed out to this device, in order.
    draw_log: Ghost<Seq<usize>>,
}

/// The neighbour of `x + n * y` in direction `k`, as coordinates moved by `direction(2, k)`.
proof fn lemma_index_d2(n: int, x: int, y: int, k: int)
    requires
        n > 0,
        0 <= x < n,
        0 <= y < n,
        0 <= k < 4,
    ensures
        neighbour_index(n, n * y + x, k)
            == n * shift(y, direction(2, k)[1] as int, n) + shift(x, direction(2, k)[0] as int, n),
{
    lemma_npow_small(n);
    if k / 2 == 0 {
        lemma_neighbour_parts(n, k, 0, x, y);
        assert(0 + 1 * (x + n * y) == n * y + x);
        let x2 = shift(x, 1 + k % 2, n);
        assert(0 + 1 * (x2 + n * y) == n * y + x2);
    } else {
        lemma_neighbour_parts(n, k, x, y, 0);
        assert(x + n * (y + n * 0) == n * y + x) by (nonlinear_arith);
        let y2 = shift(y, 1 + k % 2, n);
        assert(x + n * (y2 + n * 0) == n * y2 + x) by (nonlinear_arith);
    }
}

/// The neighbour of `x + n * y + n^2 * z` in direction `k`.
proof fn lemma_index_d3(n: int, x: int, y: int, z: int, k: int)
    requires
        n > 0,
        0 <= x < n,
        0 <= y < n,
        0 <= z < n,
        0 <= k < 6,
    ensures
        neighbour_index(n, n * n * z + n * y + x, k)
            == n * n * shift(z, direction(3, k)[2] as int, n) + n * shift(y, direction(3, k)[1] as int, n)
                + shift(x, direction(3, k)[0] as int, n),
{
    lemma_npow_small(n);
    let d = direction(3, k);
    let x2 = shift(x, d[0] as int, n);
    let y2 = shift(y, d[1] as int, n);
    let z2 = shift(z, d[2] as int, n);
    if k / 2 == 0 {
        lemma_neighbour_parts(n, k, 0, x, y + n * z);
        assert(0 + 1 * (x + n * (y + n * z)) == n * n * z + n * y + x) by (nonlinear_arith);
        assert(0 + 1 * (x2 + n * (y + n * z)) == n * n * z + n * y + x2) by (nonlinear_arith);
    } else if k / 2 == 1 {
        assert(y + n * z >= 0) by (nonlinear_arith)
            requires
                y >= 0,
                z >= 0,
                n > 0,
        ;
        lemma_neighbour_parts(n, k, x, y, z);
        assert(x + n * (y + n * z) == n * n * z + n * y + x) by (nonlinear_arith);
        assert(x + n * (y2 + n * z) == n * n * z + n * y2 + x) by (nonlinear_arith);
    } else {
        assert(0 <= x + n * y < n * n) by (nonlinear_arith)
            requires
                0 <= x < n,
                0 <= y < n,
        ;
        lemma_neighbour_parts(n, k, x + n * y, z, 0);
        assert((x + n * y) + n * n * (z + n * 0) == n * n * z + n * y + x) by (nonlinear_arith);
        assert((x + n * y) + n * n * (z2 + n * 0) == n * n * z2 + n * y + x) by (nonlinear_arith);
    }
}

impl SimulatorCPU {
    /// The buffers and the direction vectors agree with the side and the dimension.
    pub closed spec fn inv(&self) -> bool {
        &&& self.tab@.len() == npow(self.n as int, self.d as nat)
        &&& self.tab@.len() <= u32::MAX
        &&& self.background_buffer@.len() == self.tab@.len()
        &&& self.neighbours_coords@.len() == 2 * self.d
        &&& forall|k: int|
            0 <= k < 2 * self.d ==> (#[trigger] self.neighbours_coords@[k])@ == direction(self.d as nat, k)
    }

    /// Moves each coordinate of `pos` by the matching entry of `dir` (`0`: stays, `1`: forward,
    /// `2`: back), wrapping around at the border of a grid of side `n`.
    pub fn sum_pos(dir: &Vec<u8>, pos: Vec<u32>, n: u32) -> (next: Vec<u32>)
        requires
            forall|i: int|
                0 <= i < dir@.len() && 0 <= i < pos@.len() ==> {
                    &&& #[trigger] dir@[i] <= 2
                    &&& dir@[i] == 1 ==> n > 0 && (pos@[i] == n - 1 || pos@[i] < u32::MAX)
                    &&& dir@[i] == 2 && pos@[i] == 0 ==> n > 0
                },
        ensures
            next@.len() == if dir@.len() < pos@.len() { dir@.len() } else { pos@.len() },
            forall|i: int|
                0 <= i < next@.len() ==> #[trigger] next@[i] == shift(
                    pos@[i] as int,
                    dir@[i] as int,
                    n as int,
                ),
            next@.map_values(|v: u32| v as int) == moved(dir@, pos@.map_values(|v: u32| v as int), n as int),
    {
        let len = if dir.len() < pos.len() { dir.len() } else { pos.len() };
        let mut next: Vec<u32> = Vec::new();
        let mut i: usize = 0;
        while i < len
            invariant
                len == if dir@.len() < pos@.len() { dir@.len() } else { pos@.len() },
                i <= len,
                next@.len() == i,
                forall|j: int|
                    0 <= j < dir@.len() && 0 <= j < pos@.len() ==> {
                        &&& #[trigger] dir@[j] <= 2
                        &&& dir@[j] == 1 ==> n > 0 && (pos@[j] == n - 1 || pos@[j] < u32::MAX)
                        &&& dir@[j] == 2 && pos@[j] == 0 ==> n > 0
                    },
                forall|j: int|
                    0 <= j < i ==> #[trigger] next@[j] == shift(pos@[j] as int, dir@[j] as int, n as int),
            decreases len - i,
        {
            let dv = dir[i];
            let x = pos[i];
            assert(dir@[i as int] <= 2);
            let v = if dv == 0 {
                x
            } else if dv == 1 && x == n - 1 {
                0
            } else if dv == 2 && x == 0 {
                n - 1
            } else if dv == 1 {
                x + 1
            } else {
                x - 1
            };
            next.push(v);
            i = i + 1;
        }
        assert(next@.map_values(|v: u32| v as int) =~= moved(dir@, pos@.map_values(|v: u32| v as int), n as int));
        next
    }

    /// One step in dimension 1: cell `x` adopts the opinion of a random neighbour.
    fn simulate_step_d1(&mut self, draws: &Vec<usize>)
        requires
            old(self).inv(),
            old(self).d == 1,
            draws@.len() == old(self).tab@.len(),
            forall|i: int| 0 <= i < draws@.len() ==> #[trigger] draws@[i] < 2 * 1,
        ensures
            final(self).inv(),
            final(self).tab == old(self).tab,
            final(self).n == old(self).n,
            final(self).d == old(self).d,
            final(self).neighbours_coords == old(self).neighbours_coords,
            final(self).draw_log == old(self).draw_log,
            final(self).background_buffer@ == step_with(old(self).tab@, old(self).n as int, choices_of(draws@)),
    {
        let n = self.n;
        proof {
            lemma_npow_small(n as int);
        }
        let mut x: u32 = 0;
        while x < n
            invariant
                self.inv(),
                self.n == n,
                self.d == 1,
                self.tab == old(self).tab,
                self.neighbours_coords == old(self).neighbours_coords,
                self.draw_log == old(self).draw_log,
                x <= n,
                self.tab@.len() == n,
                draws@.len() == self.tab@.len(),
                forall|i: int| 0 <= i < draws@.len() ==> #[trigger] draws@[i] < 2 * self.d,
                forall|j: int|
                    0 <= j < x ==> #[trigger] self.background_buffer@[j] == self.tab@[neighbour_index(
                        n as int,
                        j,
                        draws@[j] as int,
                    )],
            decreases n - x,
        {
            let index = x as usize;
            let random_index = draws[index];
            let rand_dir = &self.neighbours_coords[random_index];
            assert(rand_dir@ == direction(1, random_index as int));
            let next_pos = SimulatorCPU::sum_pos(rand_dir, vec![x], self.n);
            let x_n = next_pos[0];
            let index_n = x_n as usize;
            proof {
                lemma_neighbour_parts(n as int, random_index as int, 0, x as int, 0);
                assert(0 + 1 * (x + n * 0) == x) by (nonlinear_arith);
                assert(0 + 1 * (x_n + n * 0) == x_n) by (nonlinear_arith);
            }
            let opinion = self.tab[index_n];
            self.background_buffer.set(index, opinion);
            x = x + 1;
        }
        assert(self.background_buffer@ =~= step_with(old(self).tab@, n as int, choices_of(draws@)));
    }

    /// One step in dimension 2: cell `x + n * y` adopts the opinion of a random neighbour.
    fn simulate_step_d2(&mut self, draws: &Vec<usize>)
        requires
            old(self).inv(),
            old(self).d == 2,
            draws@.len() == old(self).tab@.len(),
            forall|i: int| 0 <= i < draws@.len() ==> #[trigger] draws@[i] < 2 * 2,
        ensures
            final(self).inv(),
            final(self).tab == old(self).tab,
            final(self).n == old(self).n,
            final(self).d == old(self).d,
            final(self).neighbours_coords == old(self).neighbours_coords,
            final(self).draw_log == old(self).draw_log,
            final(self).background_buffer@ == step_with(old(self).tab@, old(self).n as int, choices_of(draws@)),
    {
        let n = self.n;
        proof {
            lemma_npow_small(n as int);
        }
        let mut y: u32 = 0;
        while y < n
            invariant
                self.inv(),
                self.n == n,
                self.d == 2,
                self.tab == old(self).tab,
                self.neighbours_coords == old(self).neighbours_coords,
                self.draw_log == old(self).draw_log,
                y <= n,
                self.tab@.len() == n * n,
                draws@.len() == self.tab@.len(),
                forall|i: int| 0 <= i < draws@.len() ==> #[trigger] draws@[i] < 2 * self.d,
                forall|j: int|
                    0 <= j < n * y ==> #[trigger] self.background_buffer@[j] == self.tab@[neighbour_index(
                        n as int,
                        j,
                        draws@[j] as int,
                    )],
            decreases n - y,
        {
            let mut x: u32 = 0;
            while x < n
                invariant
                    self.inv(),
                    self.n == n,
                    self.d == 2,
                    self.tab == old(self).tab,
                    self.neighbours_coords == old(self).neighbours_coords,
                    self.draw_log == old(self).draw_log,
                self.draw_log == old(self).draw_log,
                    y < n,
                    x <= n,
                    self.tab@.len() == n * n,
                    draws@.len() == self.tab@.len(),
                forall|i: int| 0 <= i < draws@.len() ==> #[trigger] draws@[i] < 2 * self.d,
                    forall|j: int|
                        0 <= j < n * y + x ==> #[trigger] self.background_buffer@[j]
                            == self.tab@[neighbour_index(n as int, j, draws@[j] as int)],
                decreases n - x,
            {
                assert(n * y + x < n * n) by (nonlinear_arith)
                    requires
                        x < n,
                        y < n,
                ;
                let index = (self.n * y + x) as usize;
                let random_index = draws[index];
                let rand_dir = &self.neighbours_coords[random_index];
                assert(rand_dir@ == direction(2, random_index as int));
                let next_pos = SimulatorCPU::sum_pos(rand_dir, vec![x, y], self.n);
                let (x_n, y_n) = (next_pos[0], next_pos[1]);
                assert(n * y_n + x_n < n * n) by (nonlinear_arith)
                    requires
                        x_n < n,
                        y_n < n,
                ;
                let index_n = (self.n * y_n + x_n) as usize;
                proof {
                    lemma_index_d2(n as int, x as int, y as int, random_index as int);
                }
                let opinion = self.tab[index_n];
                self.background_buffer.set(index, opinion);
                x = x + 1;
            }
            assert(n * (y + 1) == n * y + n) by (nonlinear_arith);
            y = y + 1;
        }
        assert(self.background_buffer@ =~= step_with(old(self).tab@, n as int, choices_of(draws@)));
    }

    /// One step in dimension 3: cell `x + n * y + n^2 * z` adopts the opinion of a random
    /// neighbour.
    fn simulate_step_d3(&mut self, draws: &Vec<usize>)
        requires
            old(self).inv(),
            old(self).d == 3,
            draws@.len() == old(self).tab@.len(),
            forall|i: int| 0 <= i < draws@.len() ==> #[trigger] draws@[i] < 2 * 3,
        ensures
            final(self).inv(),
            final(self).tab == old(self).tab,
            final(self).n == old(self).n,
            final(self).d == old(self).d,
            final(self).neighbours_coords == old(self).neighbours_coords,
            final(self).draw_log == old(self).draw_log,
            final(self).background_buffer@ == step_with(old(self).tab@, old(self).n as int, choices_of(draws@)),
    {
        let n = self.n;
        proof {
            lemma_npow_small(n as int);
            assert(n * (n * n) == n * n * n) by (nonlinear_arith);
        }
        let mut z: u32 = 0;
        while z < n
            invariant
                self.inv(),
                self.n == n,
                self.d == 3,
                self.tab == old(self).tab,
                self.neighbours_coords == old(self).neighbours_coords,
                self.draw_log == old(self).draw_log,
                z <= n,
                self.tab@.len() == n * n * n,
                draws@.len() == self.tab@.len(),
                forall|i: int| 0 <= i < draws@.len() ==> #[trigger] draws@[i] < 2 * self.d,
                forall|j: int|
                    0 <= j < n * n * z ==> #[trigger] self.background_buffer@[j]
                        == self.tab@[neighbour_index(n as int, j, draws@[j] as int)],
            decreases n - z,
        {
            let mut y: u32 = 0;
            while y < n
                invariant
                    self.inv(),
                    self.n == n,
                    self.d == 3,
                    self.tab == old(self).tab,
                    self.neighbours_coords == old(self).neighbours_coords,
                    self.draw_log == old(self).draw_log,
                self.draw_log == old(self).draw_log,
                    z < n,
                    y <= n,
                    self.tab@.len() == n * n * n,
                    draws@.len() == self.tab@.len(),
                forall|i: int| 0 <= i < draws@.len() ==> #[trigger] draws@[i] < 2 * self.d,
                    forall|j: int|
                        0 <= j < n * n * z + n * y ==> #[trigger] self.background_buffer@[j]
                            == self.tab@[neighbour_index(n as int, j, draws@[j] as int)],
                decreases n - y,
            {
                let mut x: u32 = 0;
                while x < n
                    invariant
                        self.inv(),
                        self.n == n,
                        self.d == 3,
                        self.tab == old(self).tab,
                        self.neighbours_coords == old(self).neighbours_coords,
                        self.draw_log == old(self).draw_log,
                    self.draw_log == old(self).draw_log,
                self.draw_log == old(self).draw_log,
                        z < n,
                        y < n,
                        x <= n,
                        self.tab@.len() == n * n * n,
                        draws@.len() == self.tab@.len(),
                forall|i: int| 0 <= i < draws@.len() ==> #[trigger] draws@[i] < 2 * self.d,
                        forall|j: int|
                            0 <= j < n * n * z + n * y + x ==> #[trigger] self.background_buffer@[j]
                                == self.tab@[neighbour_index(n as int, j, draws@[j] as int)],
                    decreases n - x,
                {
                    assert(n * n * z + n * y + x < n * n * n && n * n <= n * n * n && n * n * z <= n * n * z + n * y
                        && n * y <= n * n * z + n * y) by (nonlinear_arith)
                        requires
                            x < n,
                            y < n,
                            z < n,
                    ;
                    let index = (self.n * self.n * z + self.n * y + x) as usize;
                    let random_index = draws[index];
                    let rand_dir = &self.neighbours_coords[random_index];
                    assert(rand_dir@ == direction(3, random_index as int));
                    let next_pos = SimulatorCPU::sum_pos(rand_dir, vec![x, y, z], self.n);
                    let (x_n, y_n, z_n) = (next_pos[0], next_pos[1], next_pos[2]);
                    assert(n * n * z_n + n * y_n + x_n < n * n * n && n * n * z_n <= n * n * z_n + n * y_n
                        && n * y_n <= n * n * z_n + n * y_n) by (nonlinear_arith)
                        requires
                            x_n < n,
                            y_n < n,
                            z_n < n,
                    ;
                    let index_n = (self.n * self.n * z_n + self.n * y_n + x_n) as usize;
                    proof {
                        lemma_index_d3(n as int, x as int, y as int, z as int, random_index as int);
                    }
                    let opinion = self.tab[index_n];
                    self.background_buffer.set(index, opinion);
                    x = x + 1;
                }
                assert(n * (y + 1) == n * y + n) by (nonlinear_arith);
                y = y + 1;
            }
            assert(n * n * (z + 1) == n * n * z + n * n) by (nonlinear_arith);
            z = z + 1;
        }
        assert(self.background_buffer@ =~= step_with(old(self).tab@, n as int, choices_of(draws@)));
    }

    /// Every number the generator has handed out to this device, in order.
    pub closed spec fn draws_made(&self) -> Seq<usize> {
        self.draw_log@
    }

    /// Draws the neighbour that a cell copies, one of the `2d`, from the generator.
    fn draw_neighbour(&mut self) -> (r: usize)
        requires
            old(self).inv(),
            1 <= old(self).d,
        ensures
            r < 2 * old(self).d,
            final(self).draw_log@ == old(self).draw_log@.push(r),
            final(self).tab == old(self).tab,
            final(self).background_buffer == old(self).background_buffer,
            final(self).neighbours_coords == old(self).neighbours_coords,
            final(self).n == old(self).n,
            final(self).d == old(self).d,
    {
        let r = random_below(&mut self.rng, self.neighbours_coords.len());
        self.draw_log = Ghost(self.draw_log@.push(r));
        r
    }

    /// One step in which each cell `i` adopts the opinion that its neighbour `draws[i]` held:
    /// draw `r` moves one cell along axis `r / 2`, forward when `r` is even and back when it
    /// is odd, wrapping around at the border.
    pub fn step_with_draws(&mut self, draws: &Vec<usize>)
        requires
            old(self).wf(),
            old(self).can_step(),
            draws@.len() == old(self).cells().len(),
            forall|i: int| 0 <= i < draws@.len() ==> #[trigger] draws@[i] < 2 * old(self).dim(),
        ensures
            final(self).wf(),
            final(self).side() == old(self).side(),
            final(self).dim() == old(self).dim(),
            final(self).cells() == step_with(old(self).cells(), old(self).side() as int, choices_of(draws@)),
            final(self).draws_made() == old(self).draws_made(),
    {
        if self.d == 1 {
            self.simulate_step_d1(draws);
        } else if self.d == 2 {
            self.simulate_step_d2(draws);
        } else {
            self.simulate_step_d3(draws);
        }
        std::mem::swap(&mut self.tab, &mut self.background_buffer);
    }
}


impl SimulationDevice for SimulatorCPU {
    closed spec fn cells(&self) -> Seq<u8> {
        self.tab@
    }

    closed spec fn side(&self) -> nat {
        self.n as nat
    }

    closed spec fn dim(&self) -> nat {
        self.d as nat
    }

    closed spec fn wf(&self) -> bool {
        self.inv()
    }

    /// The processor handles the dimensions 1, 2 and 3.
    open spec fn can_step(&self) -> bool {
        1 <= self.dim() <= 3
    }

    /// The table on the processor is always up to date.
    open spec fn synced(&self) -> bool {
        true
    }

    fn new(initial_state: Vec<u8>, _k: u16, n: u32, d: u8) -> (device: Self)
        ensures
            device.draws_made() == Seq::<usize>::empty(),
    {
        let nb_cells: usize = match checked_pow(n as u64, d) {
            Some(v) => v as usize,
            None => 0,
        };
        let background_buffer: Vec<u8> = vec![0; nb_cells];
        let nb_neighbours: usize = 2 * (d as usize);
        let mut neighbours_coords: Vec<Vec<u8>> = Vec::new();
        let mut i: usize = 0;
        while i < nb_neighbours
            invariant
                nb_neighbours == 2 * d,
                i <= nb_neighbours,
                neighbours_coords@.len() == i,
                forall|k: int|
                    0 <= k < i ==> (#[trigger] neighbours_coords@[k])@ == direction(d as nat, k),
            decreases nb_neighbours - i,
        {
            let mut v: Vec<u8> = vec![0; d as usize];
            v.set(i / 2, 1 + (i % 2) as u8);
            assert(v@ =~= direction(d as nat, i as int));
            neighbours_coords.push(v);
            i = i + 1;
        }
        let rng = thread_rng();
        SimulatorCPU {
            tab: initial_state,
            background_buffer,
            neighbours_coords,
            rng,
            n,
            d,
            draw_log: Ghost(Seq::empty()),
        }
    }

    /// Each cell draws its own neighbour from the generator, cells in order: the step takes one
    /// number from the generator per cell, and cell `i` adopts the opinion that the neighbour
    /// picked by the `i`-th of them held.
    fn simulate_step(&mut self, _iteration: u32)
        ensures
            final(self).draws_made().len() == old(self).draws_made().len() + old(self).cells().len(),
            final(self).draws_made().subrange(0, old(self).draws_made().len() as int) == old(self).draws_made(),
            forall|i: int|
                0 <= i < old(self).cells().len() ==> #[trigger] final(self).draws_made()[old(self).draws_made().len() + i]
                    < 2 * old(self).dim(),
            forall|i: int|
                0 <= i < old(self).cells().len() ==> #[trigger] final(self).cells()[i] == old(self).cells()[neighbour_index(
                    old(self).side() as int,
                    i,
                    final(self).draws_made()[old(self).draws_made().len() + i] as int,
                )],
    {
        let nb_cells = self.tab.len();
        let nb_neighbours = self.neighbours_coords.len();
        let mut draws: Vec<usize> = Vec::new();
        while draws.len() < nb_cells
            invariant
                self.inv(),
                1 <= self.d <= 3,
                self.tab == old(self).tab,
                self.n == old(self).n,
                self.d == old(self).d,
                nb_cells == self.tab@.len(),
                nb_neighbours == 2 * self.d,
                draws@.len() <= nb_cells,
                forall|i: int| 0 <= i < draws@.len() ==> #[trigger] draws@[i] < nb_neighbours,
                self.draw_log@ == old(self).draw_log@ + draws@,
            decreases nb_cells - draws@.len(),
        {
            let r = self.draw_neighbour();
            draws.push(r);
            assert(self.draw_log@ =~= old(self).draw_log@ + draws@);
        }
        self.step_with_draws(&draws);
        assert(valid_choices(choices_of(draws@), old(self).tab@.len() as int, old(self).d as nat));
        assert(self.draw_log@.subrange(0, old(self).draw_log@.len() as int) =~= old(self).draw_log@);
        assert forall|i: int| 0 <= i < old(self).tab@.len() implies #[trigger] self.draw_log@[old(self).draw_log@.len() + i]
            == draws@[i] by {}
    }

    fn read_tab(&self) -> (tab: &Vec<u8>) {
        &self.tab
    }

    fn prepare_reading(&mut self)
        ensures
            final(self).draws_made() == old(self).draws_made(),
    {
    }
}

/// A step of the processor device takes one number from the generator per cell, and each
/// cell follows its own number: when every cell `i` of `new` holds what the neighbour picked
/// by the `i`-th number handed out during the step held in `old`, the step is the voter step
/// made with exactly those numbers, in cell order, and a possible outcome of the voter model.
pub proof fn law_step_takes_one_draw_per_cell(
    old_cells: Seq<u8>,
    new_cells: Seq<u8>,
    n: int,
    d: nat,
    log_before: Seq<usize>,
    log_after: Seq<usize>,
)
    requires
        new_cells.len() == old_cells.len(),
        log_after.len() == log_before.len() + old_cells.len(),
        log_after.subrange(0, log_before.len() as int) == log_before,
        forall|i: int| 0 <= i < old_cells.len() ==> #[trigger] log_after[log_before.len() + i] < 2 * d,
        forall|i: int|
            0 <= i < old_cells.len() ==> #[trigger] new_cells[i] == old_cells[neighbour_index(
                n,
                i,
                log_after[log_before.len() + i] as int,
            )],
    ensures
        log_after == log_before + log_after.subrange(log_before.len() as int, log_after.len() as int),
        new_cells == step_with(
            old_cells,
            n,
            choices_of(log_after.subrange(log_before.len() as int, log_after.len() as int)),
        ),
        step_relation(old_cells, new_cells, n, d),
{
    let step_draws = log_after.subrange(log_before.len() as int, log_after.len() as int);
    assert(log_after =~= log_before + step_draws);
    assert forall|i: int| 0 <= i < old_cells.len() implies #[trigger] step_draws[i] == log_after[log_before.len() + i] by {}
    assert(new_cells =~= step_with(old_cells, n, choices_of(step_draws)));
    assert(valid_choices(choices_of(step_draws), old_cells.len() as int, d));
}

} // verus!
