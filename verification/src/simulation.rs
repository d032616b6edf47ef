//! The simulation: a device that holds the grid and steps it, and the simulator
//! that sets it up from a table or a picture and counts the iterations.
pub mod simulation_data;
pub mod picture;
pub mod simulator_cpu;

use vstd::prelude::*;
use crate::error::SimulationError;
use crate::grid::{
    checked_pow, law_categories_stay_below, npow, step_relation, table_side, table_side_spec,
};
use crate::simulation::simulation_data::SimulationData;
use crate::simulation::picture::{
    color_position, decode_image, read_pixel, decoded_image, image_error, lemma_palette_len_monotone, lemma_palette_step,
    law_palette_distinct, law_palette_is_the_set_of_colours, palette, pixels_of, Rgb, RgbImage,
};

verus! {

/// A device on which the simulation runs.
pub trait SimulationDevice: Sized {
    /// The opinions of the cells, stored as described in `grid`.
    spec fn cells(&self) -> Seq<u8>;

    /// The side `n` of the grid.
    spec fn side(&self) -> nat;

    /// The dimension `d` of the grid.
    spec fn dim(&self) -> nat;

    /// The device is consistent: it holds `side^dim` cells.
    spec fn wf(&self) -> bool;

    /// The device can simulate a step of its grid.
    spec fn can_step(&self) -> bool;

    /// The table that `read_tab` hands out is up to date.
    spec fn synced(&self) -> bool;

    fn new(initial_state: Vec<u8>, k: u16, n: u32, d: u8) -> (device: Self)
        requires
            initial_state@.len() == npow(n as int, d as nat),
            initial_state@.len() <= u32::MAX,
        ensures
            device.wf(),
            device.cells() == initial_state@,
            device.side() == n,
            device.dim() == d,
    ;

    /// Simulates one step: every cell adopts the opinion of one of its neighbours.
    fn simulate_step(&mut self, iteration: u32)
        requires
            old(self).wf(),
            old(self).can_step(),
        ensures
            final(self).wf(),
            final(self).can_step(),
            final(self).side() == old(self).side(),
            final(self).dim() == old(self).dim(),
            step_relation(old(self).cells(), final(self).cells(), old(self).side() as int, old(self).dim()),
    ;

    /// Makes the table readable by `read_tab`.
    fn prepare_reading(&mut self)
        requires
            old(self).wf(),
        ensures
            final(self).wf(),
            final(self).synced(),
            final(self).can_step() == old(self).can_step(),
            final(self).cells() == old(self).cells(),
            final(self).side() == old(self).side(),
            final(self).dim() == old(self).dim(),
    ;

    /// The table of the cells; `prepare_reading` must have been called since the last step.
    fn read_tab(&self) -> (tab: &Vec<u8>)
        requires
            self.wf(),
            self.synced(),
        ensures
            tab@ == self.cells(),
    ;
}


/// The largest element of `s`, or `-1` when `s` is empty.
pub open spec fn seq_max(s: Seq<u8>) -> int
    decreases s.len(),
{
    if s.len() == 0 {
        -1
    } else {
        let m = seq_max(s.drop_last());
        if s.last() > m {
            s.last() as int
        } else {
            m
        }
    }
}

/// The error that setting up a simulation of side `n` and dimension `d` from `tab` meets,
/// if any: the table must not be empty (the categories are numbered `0..k` with
/// `k = max + 1`), and it must hold `n^d` cells, a number that fits a `u32`.
pub open spec fn setup_error(tab: Seq<u8>, n: u32, d: u8) -> Option<SimulationError> {
    if tab.len() == 0 {
        Some(SimulationError::NoMaximum)
    } else if !(npow(n as int, d as nat) == tab.len() && tab.len() <= u32::MAX) {
        Some(SimulationError::DimensionMismatch)
    } else {
        None
    }
}

/// The largest element of a nonempty sequence is one of its elements, and no element is larger.
pub proof fn lemma_seq_max(s: Seq<u8>)
    ensures
        forall|i: int| 0 <= i < s.len() ==> s[i] <= seq_max(s),
        s.len() > 0 ==> exists|i: int| 0 <= i < s.len() && s[i] == seq_max(s),
        s.len() == 0 ==> seq_max(s) == -1,
    decreases s.len(),
{
    if s.len() > 0 {
        let t = s.drop_last();
        lemma_seq_max(t);
        assert forall|i: int| 0 <= i < s.len() implies s[i] <= seq_max(s) by {
            if i < t.len() {
                assert(t[i] == s[i]);
            }
        }
        if s.last() > seq_max(t) {
            assert(s[s.len() - 1] == seq_max(s));
        } else {
            let w = choose|w: int| 0 <= w < t.len() && t[w] == seq_max(t);
            assert(s[w] == seq_max(s));
        }
    }
}

/// The largest element of `s`.
fn table_max(s: &Vec<u8>) -> (m: Option<u8>)
    ensures
        m is None <==> s@.len() == 0,
        m matches Some(v) ==> v == seq_max(s@),
        forall|i: int| 0 <= i < s@.len() ==> s@[i] <= seq_max(s@),
{
    let mut m: Option<u8> = None;
    let mut i: usize = 0;
    while i < s.len()
        invariant
            i <= s@.len(),
            m is None <==> i == 0,
            m matches Some(v) ==> v == seq_max(s@.take(i as int)),
            i == 0 ==> seq_max(s@.take(i as int)) == -1,
            forall|j: int| 0 <= j < i ==> s@[j] <= seq_max(s@.take(i as int)),
        decreases s@.len() - i,
    {
        assert(s@.take(i + 1).drop_last() =~= s@.take(i as int));
        let x = s[i];
        m = match m {
            None => Some(x),
            Some(v) => if x > v { Some(x) } else { Some(v) },
        };
        i = i + 1;
    }
    assert(s@.take(s@.len() as int) =~= s@);
    m
}

/// The simulation: its dimensions, the number of steps done and the device that holds
/// the grid.
pub struct Simulator<S: SimulationDevice> {
    pub data: SimulationData,
    simulation_iteration: u32,
    sim_device: S,
}

impl<S: SimulationDevice> Simulator<S> {
    /// The dimensions agree with the device, which holds `n^d` cells, all below `k`.
    pub closed spec fn wf(&self) -> bool {
        &&& self.sim_device.wf()
        &&& self.dims().n == self.sim_device.side()
        &&& self.dims().d == self.sim_device.dim()
        &&& self.sim_device.cells().len() == npow(self.dims().n as int, self.dims().d as nat)
        &&& forall|i: int|
            0 <= i < self.sim_device.cells().len() ==> #[trigger] self.sim_device.cells()[i]
                < self.dims().k
    }

    /// The dimensions of the simulation.
    pub closed spec fn dims(&self) -> SimulationData {
        self.data
    }

    /// The opinions of the cells.
    pub closed spec fn cells(&self) -> Seq<u8> {
        self.sim_device.cells()
    }

    /// The number of steps simulated.
    pub closed spec fn iterations(&self) -> nat {
        self.simulation_iteration as nat
    }

    /// The device that holds the grid.
    pub closed spec fn device(&self) -> S {
        self.sim_device
    }

    /// What `wf` says of the grid, in the terms of the device.
    pub proof fn lemma_wf(&self)
        requires
            self.wf(),
        ensures
            self.device().wf(),
            self.cells() == self.device().cells(),
            self.dims().n == self.device().side(),
            self.dims().d == self.device().dim(),
            self.cells().len() == npow(self.dims().n as int, self.dims().d as nat),
            forall|i: int| 0 <= i < self.cells().len() ==> #[trigger] self.cells()[i] < self.dims().k,
    {
    }

    /// Sets up the simulation of side `n` and dimension `d` that starts from `initial_tab`,
    /// with `k = max + 1` categories.
    pub fn new(initial_tab: Vec<u8>, n: u32, d: u8) -> (r: Result<Self, SimulationError>)
        ensures
            match r {
                Ok(sim) => {
                    &&& setup_error(initial_tab@, n, d) is None
                    &&& sim.wf()
                    &&& sim.cells() == initial_tab@
                    &&& sim.dims().n == n
                    &&& sim.dims().d == d
                    &&& sim.dims().k == seq_max(initial_tab@) + 1
                    &&& sim.iterations() == 0
                },
                Err(e) => setup_error(initial_tab@, n, d) == Some(e),
            },
    {
        let max = match table_max(&initial_tab) {
            Some(m) => m,
            None => {
                return Err(SimulationError::NoMaximum);
            },
        };
        let k: u16 = max as u16 + 1;
        if initial_tab.len() == 0 {
            return Err(SimulationError::EmptyTable);
        }
        let matches = match checked_pow(n as u64, d) {
            Some(v) => v <= u32::MAX as u64 && v == initial_tab.len() as u64,
            None => false,
        };
        if !matches {
            return Err(SimulationError::DimensionMismatch);
        }
        let sim_device = S::new(initial_tab, k, n, d);
        Ok(Self { simulation_iteration: 0, data: SimulationData::new(n, d, k), sim_device })
    }

    /// The dimensions of the simulation (the field `data`).
    pub fn data(&self) -> (data: &SimulationData)
        ensures
            *data == self.dims(),
    {
        &self.data
    }

    /// The number of steps simulated.
    pub fn iteration(&self) -> (i: u32)
        ensures
            i == self.iterations(),
    {
        self.simulation_iteration
    }

    /// Simulates one step: every cell adopts the opinion of one of its neighbours.
    pub fn simulate_step(&mut self)
        requires
            old(self).wf(),
            old(self).device().can_step(),
            old(self).iterations() < u32::MAX,
        ensures
            final(self).wf(),
            final(self).device().can_step(),
            final(self).dims() == old(self).dims(),
            final(self).iterations() == old(self).iterations() + 1,
            step_relation(old(self).cells(), final(self).cells(), old(self).dims().n as int, old(self).dims().d as nat),
    {
        let ghost before = self.sim_device.cells();
        self.sim_device.simulate_step(self.simulation_iteration);
        self.simulation_iteration += 1;
        proof {
            law_categories_stay_below(before, self.sim_device.cells(), self.data.n as int, self.data.d as nat, self.data.k as int);
        }
    }

    /// Makes the table readable (see `SimulationDevice`).
    pub fn prepare_reading(&mut self)
        requires
            old(self).wf(),
        ensures
            final(self).wf(),
            final(self).device().synced(),
            final(self).device().can_step() == old(self).device().can_step(),
            final(self).cells() == old(self).cells(),
            final(self).dims() == old(self).dims(),
            final(self).iterations() == old(self).iterations(),
    {
        self.sim_device.prepare_reading();
    }

    /// Reads the table of the cells (see `SimulationDevice`).
    pub fn read_tab(&self) -> (tab: &Vec<u8>)
        requires
            self.wf(),
            self.device().synced(),
        ensures
            tab@ == self.cells(),
    {
        self.sim_device.read_tab()
    }

    /// What `from_image` gives for a picture of `w` by `h` pixels with raw components `data`.
    pub open spec fn image_outcome(
        w: u32,
        h: u32,
        data: Seq<u8>,
        r: Result<(Self, Vec<Rgb>), SimulationError>,
    ) -> bool {
        match r {
            Ok((sim, colors)) => {
                let px = pixels_of(data, w * h);
                &&& image_error(w, h, data) is None
                &&& colors@ == palette(px)
                &&& sim.wf()
                &&& sim.cells().len() == px.len()
                &&& forall|i: int|
                    0 <= i < px.len() ==> #[trigger] sim.cells()[i] < colors@.len()
                        && colors@[sim.cells()[i] as int] == px[i]
                &&& sim.dims().n == w
                &&& sim.dims().d == 2
                &&& sim.dims().k == colors@.len()
                &&& sim.iterations() == 0
            },
            Err(e) => image_error(w, h, data) == Some(e),
        }
    }

    /// Sets up a simulation of dimension 2 from a square picture: each colour is a category,
    /// numbered in the order in which the colours first appear, row after row. Also returns
    /// the colour of each category.
    pub fn from_image(img: RgbImage) -> (r: Result<(Self, Vec<Rgb>), SimulationError>)
        requires
            img.data@.len() >= 3 * img.width * img.height,
            img.width == img.height ==> img.width * img.height <= u32::MAX,
        ensures
            Self::image_outcome(img.width, img.height, img.data@, r),
    {
        let (w, h) = (img.width, img.height);
        if w != h {
            return Err(SimulationError::NonSquareImage);
        }
        let n = w;
        let nb_cells = (w * h) as usize;
        let ghost px = pixels_of(img.data@, w * h);
        let mut tab: Vec<u8> = Vec::new();
        let mut cell_to_color: Vec<Rgb> = Vec::new();
        let mut k: u16 = 0;
        let mut i: usize = 0;
        while i < nb_cells
            invariant
                w == img.width,
                h == img.height,
                w == h,
                nb_cells == w * h,
                px == pixels_of(img.data@, w * h),
                img.data@.len() >= 3 * w * h,
                i <= nb_cells,
                tab@.len() == i,
                cell_to_color@ == palette(px.take(i as int)),
                k == cell_to_color@.len(),
                k <= 256,
                forall|j: int|
                    0 <= j < i ==> #[trigger] tab@[j] < cell_to_color@.len()
                        && cell_to_color@[tab@[j] as int] == px[j],
            decreases nb_cells - i,
        {
            proof {
                lemma_palette_step(px, i as int);
            }
            assert(3 * i + 2 < 3 * w * h) by (nonlinear_arith)
                requires
                    i < w * h,
            ;
            let color = read_pixel(&img.data, i);
            assert(color == px[i as int]);
            let cell = match color_position(&cell_to_color, color) {
                Some(c) => c as u8,
                None => {
                    if k == 256 {
                        proof {
                            assert(!palette(px.take(i as int)).contains(px[i as int]));
                            assert(palette(px.take(i + 1)).len() == 257);
                            lemma_palette_len_monotone(px, i + 1);
                            assert(px.take(px.len() as int) =~= px);
                        }
                        return Err(SimulationError::TooManyColors);
                    }
                    let m = k as u8;
                    k = k + 1;
                    cell_to_color.push(color);
                    m
                },
            };
            tab.push(cell);
            i = i + 1;
        }
        proof {
            assert(px.take(nb_cells as int) =~= px);
            law_palette_distinct(px);
            law_palette_is_the_set_of_colours(px);
            lemma_seq_max(tab@);
            crate::grid::lemma_npow_small(n as int);
            if nb_cells > 0 {
                let p = palette(px);
                let last = p.len() - 1;
                assert(px.contains(p[last]));
                let wi = choose|wi: int| 0 <= wi < px.len() && px[wi] == p[last];
                assert(p[tab@[wi] as int] == p[last]);
                assert(tab@[wi] == last);
                let mi = choose|mi: int| 0 <= mi < tab@.len() && tab@[mi] == seq_max(tab@);
                assert(tab@[mi] < p.len());
                assert(seq_max(tab@) == last);
                assert(npow(n as int, 2) == tab@.len());
                assert(setup_error(tab@, n, 2) is None);
            } else {
                assert(w == 0) by (nonlinear_arith)
                    requires
                        w * h == 0,
                        w == h,
                ;
                assert(palette(px) =~= Seq::<Rgb>::empty());
            }
        }
        let sim = match Self::new(tab, n, 2) {
            Ok(sim) => sim,
            Err(e) => {
                return Err(e);
            },
        };
        Ok((sim, cell_to_color))
    }

    /// Sets up a simulation from the content of a picture file whose name has the extension
    /// `extension` (which picks the format), as `from_image` does; `None` when the bytes are no
    /// picture that can be decoded in that format. A square picture with more pixels than a
    /// `u32` counts gives `ImageTooLarge`.
    pub fn from_image_bytes(bytes: &[u8], extension: &str) -> (r: Option<Result<(Self, Vec<Rgb>), SimulationError>>)
        ensures
            match decoded_image(bytes@, extension@) {
                None => r is None,
                Some((w, h, data)) => if w == h && w * h > u32::MAX {
                    r == Some(Err::<(Self, Vec<Rgb>), SimulationError>(SimulationError::ImageTooLarge))
                } else {
                    r matches Some(res) && Self::image_outcome(w, h, data, res)
                },
            },
    {
        match decode_image(bytes, extension) {
            None => None,
            Some(img) => {
                let (w, h) = (img.width as u64, img.height as u64);
                assert(w * h <= u32::MAX * u32::MAX) by (nonlinear_arith)
                    requires
                        w <= u32::MAX,
                        h <= u32::MAX,
                ;
                if w == h && w * h > u32::MAX as u64 {
                    return Some(Err(SimulationError::ImageTooLarge));
                }
                Some(Self::from_image(img))
            },
        }
    }

    /// What `from_json_values` gives: the side found for the table, the error met if any,
    /// the colours read from `cell_to_color`.
    pub open spec fn values_outcome(
        d: u8,
        tab: Seq<u8>,
        cell_to_color: Option<Vec<Vec<u8>>>,
        r: Result<(Self, Option<Vec<Rgb>>), SimulationError>,
    ) -> bool {
        match table_side_spec(tab.len() as int, d as nat) {
            None => r == Err::<(Self, Option<Vec<Rgb>>), SimulationError>(SimulationError::BadTableSize),
            Some(n) => match r {
                Ok((sim, colors)) => {
                    &&& setup_error(tab, n, d) is None
                    &&& sim.wf()
                    &&& sim.cells() == tab
                    &&& sim.dims().n == n
                    &&& sim.dims().d == d
                    &&& sim.dims().k == seq_max(tab) + 1
                    &&& sim.iterations() == 0
                    &&& match (cell_to_color, colors) {
                        (None, None) => true,
                        (Some(c), Some(o)) => {
                            &&& o@.len() == c@.len()
                            &&& forall|i: int|
                                0 <= i < c@.len() ==> #[trigger] o@[i] == (
                                    c@[i]@[0],
                                    c@[i]@[1],
                                    c@[i]@[2],
                                )
                        },
                        _ => false,
                    }
                },
                Err(e) => setup_error(tab, n, d) == Some(e),
            },
        }
    }

    /// Sets up a simulation of dimension `d` from a table of `n^d` cells, `n` being found from
    /// the length of the table, with the colours of the categories when they are given (each
    /// as a list whose first three entries are red, green and blue).
    pub fn from_json_values(d: u8, tab: Vec<u8>, cell_to_color: Option<Vec<Vec<u8>>>) -> (r: Result<
        (Self, Option<Vec<Rgb>>),
        SimulationError,
    >)
        requires
            table_side_spec(tab@.len() as int, d as nat) matches Some(n) && setup_error(tab@, n, d)
                is None ==> (cell_to_color matches Some(c) ==> forall|i: int|
                0 <= i < c@.len() ==> (#[trigger] c@[i])@.len() >= 3),
        ensures
            Self::values_outcome(d, tab@, cell_to_color, r),
    {
        let ghost tab_view = tab@;
        let n = match table_side(tab.len(), d) {
            Some(n) => n,
            None => {
                return Err(SimulationError::BadTableSize);
            },
        };
        let sim = match Self::new(tab, n, d) {
            Ok(sim) => sim,
            Err(e) => {
                return Err(e);
            },
        };
        let colors = match cell_to_color {
            None => None,
            Some(t) => {
                let mut out: Vec<Rgb> = Vec::new();
                let mut i: usize = 0;
                while i < t.len()
                    invariant
                        i <= t@.len(),
                        out@.len() == i,
                        forall|j: int| 0 <= j < t@.len() ==> (#[trigger] t@[j])@.len() >= 3,
                        forall|j: int|
                            0 <= j < i ==> #[trigger] out@[j] == (t@[j]@[0], t@[j]@[1], t@[j]@[2]),
                    decreases t@.len() - i,
                {
                    let v = &t[i];
                    assert(t@[i as int]@.len() >= 3);
                    out.push((v[0], v[1], v[2]));
                    i = i + 1;
                }
                Some(out)
            },
        };
        Ok((sim, colors))
    }
}

/// The number of `true` entries of `b`.
pub open spec fn count_true(b: Seq<bool>) -> nat
    decreases b.len(),
{
    if b.len() == 0 {
        0
    } else {
        count_true(b.drop_last()) + if b.last() { 1nat } else { 0nat }
    }
}

/// The iteration count of a simulation is the number of steps simulated: along states
/// `states[0], states[1], ...` of a simulation set up with no step done, where each state
/// follows from the one before by a step (`stepped[i]`, which adds one to the count) or by
/// a call that keeps the count (`prepare_reading`, `read_tab`, `iteration`), the count of the
/// last state is the number of steps.
pub proof fn law_iteration_counts_steps<S: SimulationDevice>(states: Seq<Simulator<S>>, stepped: Seq<bool>)
    requires
        states.len() == stepped.len() + 1,
        states[0].iterations() == 0,
        forall|i: int|
            0 <= i < stepped.len() ==> #[trigger] states[i + 1].iterations() == states[i].iterations() + if stepped[i] {
                1nat
            } else {
                0nat
            },
    ensures
        states.last().iterations() == count_true(stepped),
    decreases stepped.len(),
{
    if stepped.len() > 0 {
        let m = stepped.len() - 1;
        law_iteration_counts_steps(states.drop_last(), stepped.drop_last());
        assert(states.drop_last().last() == states[m]);
        assert(states[m + 1].iterations() == states[m].iterations() + if stepped[m] { 1nat } else { 0nat });
    }
}

/// Setting up from a picture depends on the colours of its pixels alone: two pictures of the
/// same size with the same colour at every pixel give the same error, or the same colours,
/// dimensions and table.
pub proof fn law_image_outcome_depends_on_colours_only<S: SimulationDevice>(
    w: u32,
    h: u32,
    data1: Seq<u8>,
    data2: Seq<u8>,
    r1: Result<(Simulator<S>, Vec<Rgb>), SimulationError>,
    r2: Result<(Simulator<S>, Vec<Rgb>), SimulationError>,
)
    requires
        pixels_of(data1, w * h) == pixels_of(data2, w * h),
        Simulator::<S>::image_outcome(w, h, data1, r1),
        Simulator::<S>::image_outcome(w, h, data2, r2),
    ensures
        r1 is Err <==> r2 is Err,
        r1 is Err ==> r1 == r2,
        r1 is Ok ==> {
            let (s1, c1) = r1->Ok_0;
            let (s2, c2) = r2->Ok_0;
            &&& c1@ == c2@
            &&& s1.cells() == s2.cells()
            &&& s1.dims() == s2.dims()
            &&& s1.iterations() == s2.iterations()
        },
{
    let px = pixels_of(data1, w * h);
    assert(image_error(w, h, data1) == image_error(w, h, data2));
    if r1 is Ok && r2 is Ok {
        let (s1, c1) = r1->Ok_0;
        let (s2, c2) = r2->Ok_0;
        law_palette_distinct(px);
        assert forall|i: int| 0 <= i < px.len() implies s1.cells()[i] == s2.cells()[i] by {
            let p = palette(px);
            assert(p[s1.cells()[i] as int] == px[i]);
            assert(p[s2.cells()[i] as int] == px[i]);
        }
        assert(s1.cells() =~= s2.cells());
    }
}

} // verus!
