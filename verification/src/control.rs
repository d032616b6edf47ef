//! The decisions of the two ways of running a simulation: in a window, where the redraws
//! of the window drive the steps, and without a window, in a plain loop.
use vstd::prelude::*;

verus! {

/// What to do after a step of a run without a window.
#[derive(Debug, Clone, Copy, PartialEq, Eq, Structural)]
pub enum TurnEnd {
    /// The last iteration asked for is reached.
    Stop,
    /// Look whether the user asked to stop (every thousandth turn).
    CheckKeyboard,
    /// Go on with the next turn.
    Continue,
}

/// A run without a window: it stops after `max_iteration` iterations (never when `None`)
/// or when the user asks, and saves the state every `save_interval` iterations.
pub struct HeadlessRun {
    pub turns: u32,
    pub max_iteration: Option<u32>,
    pub save_interval: u32,
}

impl HeadlessRun {
    pub fn new(max_iteration: Option<u32>, save_interval: u32) -> (run: Self)
        ensures
            run.turns == 0,
            run.max_iteration == max_iteration,
            run.save_interval == save_interval,
    {
        HeadlessRun { turns: 0, max_iteration, save_interval }
    }

    /// Starts a turn, before the step from `iteration`: whether to save the state first.
    pub fn begin_turn(&mut self, iteration: u32) -> (save: bool)
        requires
            old(self).turns < u32::MAX,
            old(self).save_interval > 0,
        ensures
            final(self).turns == old(self).turns + 1,
            final(self).max_iteration == old(self).max_iteration,
            final(self).save_interval == old(self).save_interval,
            save == (iteration % old(self).save_interval == 0),
    {
        self.turns = self.turns + 1;
        iteration % self.save_interval == 0
    }

    /// Whether the last iteration asked for is reached at `iteration`: the run does no more
    /// steps (none at all when zero iterations are asked for).
    pub fn limit_reached(&self, iteration: u32) -> (reached: bool)
        ensures
            reached == (self.max_iteration matches Some(m) && iteration >= m),
    {
        match self.max_iteration {
            Some(m) => iteration >= m,
            None => false,
        }
    }

    /// Ends a turn, after the step that led to `iteration`.
    pub fn end_turn(&self, iteration: u32) -> (next: TurnEnd)
        ensures
            next == if (self.max_iteration matches Some(m) && iteration >= m) {
                TurnEnd::Stop
            } else if self.turns % 1000 == 0 {
                TurnEnd::CheckKeyboard
            } else {
                TurnEnd::Continue
            },
    {
        if self.limit_reached(iteration) {
            return TurnEnd::Stop;
        }
        if self.turns % 1000 == 0 {
            TurnEnd::CheckKeyboard
        } else {
            TurnEnd::Continue
        }
    }
}

/// What a redraw of the window calls for.
#[derive(Debug, Clone, Copy, PartialEq, Eq, Structural)]
pub struct RedrawPlan {
    /// Make the table readable.
    pub prepare: bool,
    /// Draw the grid.
    pub render: bool,
    /// Save the state.
    pub save: bool,
    /// Advance the simulation, as the display method allows.
    pub advance: bool,
}

/// The state of a run in a window: it draws every `display_interval` iterations (every
/// iteration when `None`, the simulation then running at a fixed frequency), saves every
/// `save_interval` iterations, and is paused until the user starts it.
pub struct DisplayState {
    pub display_interval: Option<u32>,
    pub save_interval: u32,
    pub last_rendering_iteration: u32,
    pub last_saving_iteration: u32,
    pub first_iteration: bool,
    pub running: bool,
}

/// Nothing to do.
pub open spec fn idle_plan() -> RedrawPlan {
    RedrawPlan { prepare: false, render: false, save: false, advance: false }
}

/// The grid of `iteration` is due to be drawn: not drawn yet at this iteration, and the
/// display method asks for it.
pub open spec fn render_due(s: DisplayState, iteration: u32) -> bool {
    s.last_rendering_iteration < iteration && match s.display_interval {
        Some(di) => iteration % di == 0,
        None => true,
    }
}

/// The state of `iteration` is due to be saved: a multiple of the save interval, not saved yet.
pub open spec fn save_due(s: DisplayState, iteration: u32) -> bool {
    iteration % s.save_interval == 0 && s.last_saving_iteration < iteration
}

/// What a redraw at `iteration` calls for, from state `s`.
pub open spec fn redraw_plan(s: DisplayState, iteration: u32) -> RedrawPlan {
    if !s.running {
        idle_plan()
    } else if s.first_iteration {
        RedrawPlan { prepare: true, render: true, save: true, advance: false }
    } else {
        let render = render_due(s, iteration);
        let save = save_due(s, iteration);
        RedrawPlan { prepare: render || save, render, save, advance: true }
    }
}

/// The state after a redraw at `iteration` from state `s`: drawing marks the iteration as
/// drawn, saving marks it as saved.
pub open spec fn after_redraw(s: DisplayState, iteration: u32) -> DisplayState {
    if !s.running {
        s
    } else if s.first_iteration {
        DisplayState { first_iteration: false, ..s }
    } else {
        DisplayState {
            last_rendering_iteration: if render_due(s, iteration) { iteration } else { s.last_rendering_iteration },
            last_saving_iteration: if save_due(s, iteration) { iteration } else { s.last_saving_iteration },
            ..s
        }
    }
}

/// The state after the user pressed the space bar.
pub open spec fn toggled(s: DisplayState) -> DisplayState {
    DisplayState { running: !s.running, ..s }
}

/// The state after the user pressed the space bar `p` times.
pub open spec fn toggled_times(s: DisplayState, p: nat) -> DisplayState
    decreases p,
{
    if p == 0 {
        s
    } else {
        toggled(toggled_times(s, (p - 1) as nat))
    }
}

impl DisplayState {
    pub fn new(display_interval: Option<u32>, save_interval: u32) -> (state: Self)
        ensures
            state.display_interval == display_interval,
            state.save_interval == save_interval,
            state.last_rendering_iteration == 0,
            state.last_saving_iteration == 0,
            state.first_iteration,
            !state.running,
    {
        DisplayState {
            display_interval,
            save_interval,
            last_rendering_iteration: 0,
            last_saving_iteration: 0,
            first_iteration: true,
            running: false,
        }
    }

    /// The user pressed the space bar: pause or resume.
    pub fn toggle_running(&mut self)
        ensures
            *final(self) == toggled(*old(self)),
    {
        self.running = !self.running;
    }

    /// The window asks for a redraw while the simulation is at `iteration`. When paused,
    /// nothing is done. The first redraw after the start draws and saves the initial state.
    /// Later redraws draw when the grid of this iteration is due, save when the state of this
    /// iteration is due, and advance the simulation. A drawing is recorded as the last drawn
    /// iteration and a save as the last saved one, so that each iteration is drawn at most once
    /// and saved at most once.
    pub fn on_redraw(&mut self, iteration: u32) -> (plan: RedrawPlan)
        requires
            old(self).running && !old(self).first_iteration ==> old(self).save_interval > 0,
            old(self).running && !old(self).first_iteration ==> old(self).display_interval != Some(0u32),
        ensures
            plan == redraw_plan(*old(self), iteration),
            *final(self) == after_redraw(*old(self), iteration),
            !old(self).running ==> !plan.prepare && !plan.render && !plan.save && !plan.advance,
            old(self).running && old(self).first_iteration ==> plan.prepare && plan.render && plan.save
                && !plan.advance,
            old(self).running && !old(self).first_iteration ==> {
                &&& plan.save == (iteration % old(self).save_interval == 0
                    && old(self).last_saving_iteration < iteration)
                &&& plan.render == (old(self).last_rendering_iteration < iteration && match old(self).display_interval {
                    Some(di) => iteration % di == 0,
                    None => true,
                })
                &&& plan.prepare == (plan.render || plan.save)
                &&& plan.advance
                &&& final(self).last_saving_iteration == if plan.save { iteration } else { old(self).last_saving_iteration }
                &&& final(self).last_rendering_iteration == if plan.render { iteration } else { old(self).last_rendering_iteration }
            },
    {
        if !self.running {
            return RedrawPlan { prepare: false, render: false, save: false, advance: false };
        }
        if self.first_iteration {
            self.first_iteration = false;
            return RedrawPlan { prepare: true, render: true, save: true, advance: false };
        }
        let render = self.last_rendering_iteration < iteration && match self.display_interval {
            Some(display_interval) => iteration % display_interval == 0,
            None => true,
        };
        let save = iteration % self.save_interval == 0 && self.last_saving_iteration < iteration;
        if render {
            self.last_rendering_iteration = iteration;
        }
        if save {
            self.last_saving_iteration = iteration;
        }
        RedrawPlan { prepare: render || save, render, save, advance: true }
    }
}

/// After `p` presses of the space bar from a paused state, the simulation runs exactly when
/// `p` is odd; nothing else of the state changes.
pub proof fn law_space_bar_toggles(s: DisplayState, p: nat)
    requires
        !s.running,
    ensures
        toggled_times(s, p).running == (p % 2 == 1),
        toggled_times(s, p) == (DisplayState { running: toggled_times(s, p).running, ..s }),
    decreases p,
{
    if p > 0 {
        law_space_bar_toggles(s, (p - 1) as nat);
    }
}

/// A paused simulation does nothing on a redraw, and its state stays as it was.
pub proof fn law_paused_redraw_does_nothing(s: DisplayState, iteration: u32)
    requires
        !s.running,
    ensures
        redraw_plan(s, iteration) == idle_plan(),
        after_redraw(s, iteration) == s,
{
}

/// Each iteration is drawn at most once and saved at most once: a second redraw at the same
/// iteration neither draws nor saves what the first drew or saved.
pub proof fn law_each_iteration_drawn_and_saved_once(s: DisplayState, iteration: u32)
    requires
        s.running,
        !s.first_iteration,
    ensures
        redraw_plan(s, iteration).render ==> !redraw_plan(after_redraw(s, iteration), iteration).render,
        redraw_plan(s, iteration).save ==> !redraw_plan(after_redraw(s, iteration), iteration).save,
{
}

/// Saving does not depend on drawing: a redraw of a running simulation past its first
/// iteration saves exactly when the iteration is a multiple of the save interval that has not
/// been saved yet, whether the grid is drawn or not; in particular at a fixed frequency every
/// such iteration is saved.
pub proof fn law_save_independent_of_drawing(s: DisplayState, iteration: u32)
    requires
        s.running,
        !s.first_iteration,
        s.save_interval > 0,
    ensures
        redraw_plan(s, iteration).save == (iteration % s.save_interval == 0 && s.last_saving_iteration < iteration),
        after_redraw(s, iteration).last_saving_iteration == if iteration % s.save_interval == 0
            && s.last_saving_iteration < iteration {
            iteration
        } else {
            s.last_saving_iteration
        },
        s.display_interval is None && s.last_rendering_iteration < iteration ==> redraw_plan(s, iteration).render,
{
}

} // verus!
