//! The tick scheduler: it owns the world, follows the keys, and decides in
//! every frame which passes run.
//!
//! The engine makes the decisions of the game loop; the loop itself belongs
//! to the caller, who polls the window, reads the clock, hands both to
//! [`Engine::frame`] and then does what the returned action says.

use vstd::prelude::*;
use crate::components::TICKS_PER_SECOND;
use crate::err::{EngineError, EngineErrorTrait};
use crate::game_object::same_shape;
use crate::graphics::Graphics;
use crate::tree::ObjectId;
use crate::world::{
    Phase, TickInfo, World, WorldView, clamp_delta, collision_pass_result, elapsed, key_down,
    phase_result, with_key, world_wf, KEY_ESCAPE,
};

verus! {

/// The number of fixed-rate passes a second that a new engine aims at.
pub const DEFAULT_TICK_RATE: u32 = 60;

/// The largest value that the timing correction can take: twice the longest
/// time that two clock readings can lie apart.
pub const OVERFLOW_MAX: i128 = 0x2_0000_0000_0000_0000;

/// What the window reports between two frames, as far as the engine cares.
#[derive(Clone, Copy, Debug, PartialEq, Eq, Structural)]
pub enum InputEvent {
    /// The key with this code went down.
    KeyPress(i32),
    /// The key with this code went up.
    KeyRelease(i32),
    /// Anything else.
    Other,
}

/// What the caller of [`Engine::frame`] has to do next.
#[derive(Clone, Copy, Debug, PartialEq, Eq, Structural)]
pub enum FrameAction {
    /// Close the window and leave the loop; no pass has run.
    Close,
    /// Draw the world and swap the buffers.
    Render,
}

/// The timing state of the scheduler: when the last variable-rate and the
/// last fixed-rate pass ran, and the correction that lets the next fixed-rate
/// pass start early after one that started late.
pub struct ClockView {
    pub last_tick: u64,
    pub last_fixed_tick: u64,
    pub overflow: int,
}

/// The engine as plain values.
pub struct EngineView {
    pub running: bool,
    pub fixed_tick_duration: u64,
    pub should_close: bool,
    pub clock: ClockView,
    pub world: WorldView,
}

/// The scheduler and the world it drives.
pub struct Engine {
    running: bool,
    fixed_tick_duration: u64,
    should_close: bool,
    last_tick: u64,
    last_fixed_tick: u64,
    fixed_tick_overflow: i128,
    world: World,
}

impl View for Engine {
    type V = EngineView;

    closed spec fn view(&self) -> EngineView {
        EngineView {
            running: self.running,
            fixed_tick_duration: self.fixed_tick_duration,
            should_close: self.should_close,
            clock: ClockView {
                last_tick: self.last_tick,
                last_fixed_tick: self.last_fixed_tick,
                overflow: self.fixed_tick_overflow as int,
            },
            world: self.world@,
        }
    }
}

/// An engine is sound: its world is, and the timing correction is in range.
pub open spec fn engine_wf(s: EngineView) -> bool {
    &&& world_wf(s.world)
    &&& 0 <= s.clock.overflow <= OVERFLOW_MAX
}

/// The time of one fixed-rate pass for `tickrate` passes a second; a rate of
/// zero stands for a pass that never comes due.
pub open spec fn tick_duration(tickrate: u32) -> u64 {
    if tickrate == 0 {
        u64::MAX
    } else {
        (TICKS_PER_SECOND as u64 / tickrate as u64) as u64
    }
}

/// The key table after one event: a key that goes down or up is recorded,
/// except that the Escape key going down is not.
pub open spec fn event_applied(keys: Seq<bool>, event: InputEvent) -> Seq<bool> {
    match event {
        InputEvent::KeyPress(key) => if key == KEY_ESCAPE {
            keys
        } else {
            with_key(keys, key as int, true)
        },
        InputEvent::KeyRelease(key) => with_key(keys, key as int, false),
        InputEvent::Other => keys,
    }
}

/// The key table after the first `k` of `events`, in order.
pub open spec fn keys_after(keys: Seq<bool>, events: Seq<InputEvent>, k: nat) -> Seq<bool>
    decreases k,
{
    if k == 0 {
        keys
    } else {
        event_applied(keys_after(keys, events, (k - 1) as nat), events[k - 1])
    }
}

/// The Escape key goes down in one of the first `k` of `events`.
pub open spec fn asks_to_close(events: Seq<InputEvent>, k: nat) -> bool {
    exists|i: int| 0 <= i < k && events[i] == InputEvent::KeyPress(KEY_ESCAPE)
}

/// How far past its time the next fixed-rate pass is at `now`; negative while
/// it is not yet due.
pub open spec fn fixed_diff(c: ClockView, duration: u64, now: u64) -> int {
    now - c.last_fixed_tick - duration
}

/// Whether a fixed-rate pass runs at `now`: its time has come, give or take
/// the correction.
pub open spec fn fixed_due(c: ClockView, duration: u64, now: u64) -> bool {
    fixed_diff(c, duration, now) + c.overflow >= 0
}

/// The timing state after the frame at `now`. Every frame runs a
/// variable-rate pass. A frame in which a fixed-rate pass runs restarts the
/// fixed-rate timer and sets the correction to twice the time by which the
/// pass was late, or to nothing if it was early.
pub open spec fn clock_after(c: ClockView, duration: u64, now: u64) -> ClockView {
    if fixed_due(c, duration, now) {
        ClockView {
            last_tick: now,
            last_fixed_tick: now,
            overflow: if fixed_diff(c, duration, now) > 0 {
                2 * fixed_diff(c, duration, now)
            } else {
                0
            },
        }
    } else {
        ClockView { last_tick: now, last_fixed_tick: c.last_fixed_tick, overflow: c.overflow }
    }
}

/// The engine after the events of a frame have been taken in.
pub open spec fn polled(s: EngineView, events: Seq<InputEvent>) -> EngineView {
    EngineView {
        should_close: s.should_close || asks_to_close(events, events.len()),
        world: WorldView { keys: keys_after(s.world.keys, events, events.len()), ..s.world },
        ..s
    }
}

/// The world after the variable-rate part of a frame at `now`: the update
/// pass over all objects, then the collision pass.
pub open spec fn game_ticked(w: WorldView, dt: int) -> WorldView {
    collision_pass_result(phase_result(w, Phase::Update, dt))
}

/// The world after a fixed-rate pass.
pub open spec fn fixed_game_ticked(w: WorldView, dt: int) -> WorldView {
    phase_result(w, Phase::FixedUpdate, dt)
}

/// The engine after the passes of the frame at `now` have run: the
/// variable-rate pass, the fixed-rate pass if it is due, and the render pass.
pub open spec fn ticked(s: EngineView, now: u64) -> EngineView {
    let frame_delta = clamp_delta(now - s.clock.last_tick);
    let varied = game_ticked(WorldView { now, ..s.world }, frame_delta);
    let fixed = if fixed_due(s.clock, s.fixed_tick_duration, now) {
        fixed_game_ticked(varied, clamp_delta(now - s.clock.last_fixed_tick))
    } else {
        varied
    };
    EngineView {
        clock: clock_after(s.clock, s.fixed_tick_duration, now),
        world: phase_result(fixed, Phase::Render, frame_delta),
        ..s
    }
}

/// The engine after the frame at `now` with the given events: once the
/// window is to close nothing runs any more.
pub open spec fn frame_result(s: EngineView, events: Seq<InputEvent>, now: u64) -> EngineView {
    if polled(s, events).should_close {
        polled(s, events)
    } else {
        ticked(polled(s, events), now)
    }
}

/// The engine after the loop has been started at `now`: both timers start at
/// `now` without correction, and every component has been initialised.
pub open spec fn started(s: EngineView, now: u64) -> EngineView {
    EngineView {
        running: true,
        should_close: false,
        clock: ClockView { last_tick: now, last_fixed_tick: now, overflow: 0 },
        world: phase_result(WorldView { now, ..s.world }, Phase::Init, 0),
        ..s
    }
}

/// The timing state is settled for frames of at most `longest` clock ticks:
/// the correction is at most twice that long, and no fixed-rate pass has been
/// due since the last one ran.
pub open spec fn clock_settled(c: ClockView, duration: u64, longest: int) -> bool {
    &&& 0 <= c.overflow <= 2 * longest
    &&& c.last_fixed_tick <= c.last_tick
    &&& (c.last_tick == c.last_fixed_tick || c.last_tick - c.last_fixed_tick - duration
        + c.overflow < 0)
}

/// A clock that has just been started is settled.
pub proof fn lemma_started_clock_settled(now: u64, duration: u64, longest: int)
    requires
        longest >= 0,
    ensures
        clock_settled(
            ClockView { last_tick: now, last_fixed_tick: now, overflow: 0 },
            duration,
            longest,
        ),
{
}

/// The timing correction stays bounded: as long as no frame takes more than
/// `longest` clock ticks and the clock does not run backwards, the correction
/// never exceeds twice `longest`, whatever the sizes of the single frames.
pub proof fn lemma_overflow_bounded(c: ClockView, duration: u64, now: u64, longest: int)
    requires
        clock_settled(c, duration, longest),
        c.last_tick <= now <= c.last_tick + longest,
    ensures
        clock_settled(clock_after(c, duration, now), duration, longest),
{
}

/// A frame moves the clock on by one step, whatever the components do in
/// it, and a frame that finds the window closing leaves the clock alone.
pub proof fn lemma_frame_clock(s: EngineView, events: Seq<InputEvent>, now: u64)
    ensures
        frame_result(s, events, now).running == s.running,
        frame_result(s, events, now).fixed_tick_duration == s.fixed_tick_duration,
        frame_result(s, events, now).should_close == (s.should_close || asks_to_close(
            events,
            events.len(),
        )),
        frame_result(s, events, now).should_close ==> frame_result(s, events, now).clock == s.clock,
        !frame_result(s, events, now).should_close ==> frame_result(s, events, now).clock
            == clock_after(s.clock, s.fixed_tick_duration, now),
{
}

/// The timing state after the first `k` of the frames at `times`.
pub open spec fn clock_run(c: ClockView, duration: u64, times: Seq<u64>, k: nat) -> ClockView
    decreases k,
{
    if k == 0 {
        c
    } else {
        clock_after(clock_run(c, duration, times, (k - 1) as nat), duration, times[k - 1])
    }
}

/// The number of fixed-rate passes that run in the first `k` of the frames
/// at `times`.
pub open spec fn passes_run(c: ClockView, duration: u64, times: Seq<u64>, k: nat) -> nat
    decreases k,
{
    if k == 0 {
        0
    } else {
        let before = passes_run(c, duration, times, (k - 1) as nat);
        if fixed_due(clock_run(c, duration, times, (k - 1) as nat), duration, times[k - 1]) {
            before + 1
        } else {
            before
        }
    }
}

/// The frames at `times` follow a start at `start` without the clock running
/// backwards, and none takes more than `longest` clock ticks.
pub open spec fn steady_frames(start: u64, times: Seq<u64>, longest: int) -> bool {
    &&& times.len() > 0 ==> start <= times[0] <= start + longest
    &&& forall|i: int|
        0 < i < times.len() ==> times[i - 1] <= (#[trigger] times[i]) <= times[i - 1] + longest
}

/// The time of the last of the first `k` frames, or the start for no frame.
pub open spec fn time_reached(start: u64, times: Seq<u64>, k: nat) -> u64 {
    if k == 0 {
        start
    } else {
        times[k - 1]
    }
}

/// The number of fixed-rate passes follows the time that has gone by,
/// whatever the sizes of the single frames: as long as no frame takes more
/// than `longest` clock ticks, `n` passes take no less than `n` times the
/// pass duration shortened by twice `longest`, and one pass more would take
/// more than the time gone by even at the duration lengthened by `longest`.
/// The timing correction stays within twice `longest` all the while.
pub proof fn lemma_fixed_pass_count(
    start: u64,
    duration: u64,
    times: Seq<u64>,
    k: nat,
    longest: int,
)
    requires
        duration > 0,
        longest >= 0,
        k <= times.len(),
        steady_frames(start, times, longest),
    ensures
        ({
            let begin = ClockView { last_tick: start, last_fixed_tick: start, overflow: 0 };
            let n = passes_run(begin, duration, times, k);
            let gone = time_reached(start, times, k) - start;
            let end = clock_run(begin, duration, times, k);
            &&& n * (duration - 2 * longest) <= gone
            &&& gone < (n + 1) * (duration + longest)
            &&& 0 <= end.overflow <= 2 * longest
            &&& end.last_tick == time_reached(start, times, k)
        }),
{
    lemma_fixed_pass_span(start, duration, times, k, longest);
    let begin = ClockView { last_tick: start, last_fixed_tick: start, overflow: 0 };
    let n = passes_run(begin, duration, times, k) as int;
    let end = clock_run(begin, duration, times, k);
    let d = duration as int;
    assert((n + 1) * (d + longest) == n * (d + longest) + d + longest) by (nonlinear_arith);
}

/// What the count of fixed-rate passes rests on: the time of the last pass
/// lies between `n` shortened and `n` lengthened durations behind the start,
/// and the timing state is settled.
proof fn lemma_fixed_pass_span(start: u64, duration: u64, times: Seq<u64>, k: nat, longest: int)
    requires
        longest >= 0,
        k <= times.len(),
        steady_frames(start, times, longest),
    ensures
        ({
            let begin = ClockView { last_tick: start, last_fixed_tick: start, overflow: 0 };
            let n = passes_run(begin, duration, times, k);
            let end = clock_run(begin, duration, times, k);
            &&& clock_settled(end, duration, longest)
            &&& end.last_tick == time_reached(start, times, k)
            &&& start <= end.last_fixed_tick
            &&& n * (duration - 2 * longest) <= end.last_fixed_tick - start
            &&& end.last_fixed_tick - start <= n * (duration + longest)
        }),
    decreases k,
{
    let begin = ClockView { last_tick: start, last_fixed_tick: start, overflow: 0 };
    if k > 0 {
        let j = (k - 1) as nat;
        lemma_fixed_pass_span(start, duration, times, j, longest);
        let before = clock_run(begin, duration, times, j);
        let n = passes_run(begin, duration, times, j) as int;
        let now = times[k - 1];
        let d = duration as int;
        assert(before.last_tick <= now <= before.last_tick + longest) by {
            if j > 0 {
                assert(times[k - 2] <= times[k - 1] <= times[k - 2] + longest);
            }
        }
        lemma_overflow_bounded(before, duration, now, longest);
        if fixed_due(before, duration, now) {
            assert((n + 1) * (d - 2 * longest) == n * (d - 2 * longest) + d - 2 * longest)
                by (nonlinear_arith);
            assert((n + 1) * (d + longest) == n * (d + longest) + d + longest)
                by (nonlinear_arith);
        }
    } else {
        assert(passes_run(begin, duration, times, 0) == 0);
        assert(0 * (duration - 2 * longest) == 0) by (nonlinear_arith);
        assert(0 * (duration + longest) == 0) by (nonlinear_arith);
    }
}

/// A fixed-rate pass never runs before its time by more than the correction,
/// and it runs in the first frame that is that late.
pub proof fn lemma_fixed_pass_timing(c: ClockView, duration: u64, now: u64)
    requires
        c.overflow >= 0,
    ensures
        clock_after(c, duration, now).last_fixed_tick == now <== now - c.last_fixed_tick
            >= duration - c.overflow,
        now - c.last_fixed_tick < duration - c.overflow ==> clock_after(c, duration, now).last_fixed_tick
            == c.last_fixed_tick,
        clock_after(c, duration, now).overflow >= 0,
{
}

impl Engine {
    /// The engine is sound.
    pub open spec fn wf(&self) -> bool {
        engine_wf(self@)
    }

    /// Makes the engine once the graphics collaborator has come up, and fails
    /// with its error if it has not. A new engine is stopped, aims at sixty
    /// fixed-rate passes a second and holds a new world.
    pub fn init_engine(graphics: Result<(), EngineError>) -> (made: Result<Engine, EngineError>)
        ensures
            match graphics {
                Ok(_) => {
                    &&& made is Ok
                    &&& made->Ok_0.wf()
                    &&& !made->Ok_0@.running
                    &&& !made->Ok_0@.should_close
                    &&& made->Ok_0@.fixed_tick_duration == tick_duration(DEFAULT_TICK_RATE)
                    &&& made->Ok_0@.clock == (ClockView {
                        last_tick: 0,
                        last_fixed_tick: 0,
                        overflow: 0,
                    })
                    &&& made->Ok_0@.world.objects.len() == 1
                    &&& made->Ok_0@.world.root == (ObjectId { index: 0 })
                    &&& made->Ok_0@.world.objects[0] == crate::game_object::fresh_object(
                        ObjectId { index: 0 },
                        "root"@,
                    )
                    &&& made->Ok_0@.world.gfx.camera == crate::graphics::initial_camera()
                    &&& forall|i: int|
                        0 <= i < crate::graphics::INSTANCES ==> made->Ok_0@.world.gfx.sprites[i]
                            == crate::graphics::empty_slot()
                    &&& forall|i: int| 0 <= i < crate::world::KEY_COUNT ==> !made->Ok_0@.world.keys[i]
                    &&& made->Ok_0@.world.reports.len() == 0
                    &&& made->Ok_0@.world.contacts.len() == 0
                },
                Err(e) => made == Err::<Engine, EngineError>(e),
            },
    {
        match graphics {
            Err(e) => Err(e),
            Ok(_) => Ok(
                Engine {
                    running: false,
                    fixed_tick_duration: TICKS_PER_SECOND as u64 / DEFAULT_TICK_RATE as u64,
                    should_close: false,
                    last_tick: 0,
                    last_fixed_tick: 0,
                    fixed_tick_overflow: 0,
                    world: World::new(),
                },
            ),
        }
    }

    /// Starts the game loop at time `now` and initialises every component.
    /// Starting a loop that is already running is an error and changes
    /// nothing.
    pub fn start_game_loop(&mut self, now: u64) -> (r: Result<(), EngineError>)
        requires
            old(self).wf(),
        ensures
            final(self).wf(),
            old(self)@.running ==> {
                &&& r is Err
                &&& r->Err_0.message() == "Game loop already running!"@
                &&& final(self)@ == old(self)@
            },
            !old(self)@.running ==> {
                &&& r is Ok
                &&& final(self)@ == started(old(self)@, now)
            },
    {
        if self.running {
            proof {
                crate::err::lemma_static_message("Game loop already running!");
            }
            return Err(EngineError::from("Game loop already running!"));
        }
        self.running = true;
        self.should_close = false;
        self.last_tick = now;
        self.last_fixed_tick = now;
        self.fixed_tick_overflow = 0;
        self.world.set_now(now);
        self.init();
        Ok(())
    }

    /// Runs one frame of the game loop. The events are taken in first: they
    /// update the key table, and the Escape key going down asks for the
    /// window to close. Once that has been asked for, the frame does nothing
    /// more and tells the caller to close the window. Otherwise the
    /// variable-rate pass runs, then the collision pass, then the fixed-rate
    /// pass if it is due, then the render pass, and the caller is told to
    /// draw.
    pub fn frame(&mut self, events: &Vec<InputEvent>, now: u64) -> (action: FrameAction)
        requires
            old(self).wf(),
        ensures
            final(self).wf(),
            final(self)@ == frame_result(old(self)@, events@, now),
            action == if final(self)@.should_close {
                FrameAction::Close
            } else {
                FrameAction::Render
            },
            same_shape(old(self)@.world.objects, final(self)@.world.objects),
    {
        self.poll(events);
        if self.should_close {
            return FrameAction::Close;
        }
        let ghost before = self@;
        let frame_delta = elapsed(now, self.last_tick);
        self.world.set_now(now);
        self.game_tick(frame_delta);
        let ghost varied = self@;
        let fixed_diff = now as i128 - self.last_fixed_tick as i128
            - self.fixed_tick_duration as i128;
        if fixed_diff + self.fixed_tick_overflow >= 0 {
            self.fixed_tick_overflow = if fixed_diff > 0 {
                fixed_diff * 2
            } else {
                0
            };
            self.fixed_game_tick(elapsed(now, self.last_fixed_tick));
            self.last_fixed_tick = now;
        }
        self.last_tick = now;
        let ghost fixed = self@;
        self.world.run_phase(Phase::Render, TickInfo { delta_time: frame_delta });
        proof {
            crate::game_object::lemma_same_shape_trans(
                before.world.objects,
                varied.world.objects,
                fixed.world.objects,
            );
            crate::game_object::lemma_same_shape_trans(
                before.world.objects,
                fixed.world.objects,
                self@.world.objects,
            );
        }
        FrameAction::Render
    }

    /// Takes in the events of a frame.
    pub fn poll(&mut self, events: &Vec<InputEvent>)
        requires
            old(self).wf(),
        ensures
            final(self).wf(),
            final(self)@ == polled(old(self)@, events@),
    {
        let ghost before = self@;
        let mut i: usize = 0;
        while i < events.len()
            invariant
                i <= events@.len(),
                self.wf(),
                self@ == (EngineView {
                    should_close: before.should_close || asks_to_close(events@, i as nat),
                    world: WorldView {
                        keys: keys_after(before.world.keys, events@, i as nat),
                        ..before.world
                    },
                    ..before
                }),
            decreases events@.len() - i,
        {
            let ghost closing = asks_to_close(events@, i as nat);
            match events[i] {
                InputEvent::KeyPress(key) => {
                    if key == KEY_ESCAPE {
                        self.should_close = true;
                    } else {
                        self.world.set_key(key, true);
                    }
                },
                InputEvent::KeyRelease(key) => {
                    self.world.set_key(key, false);
                },
                InputEvent::Other => {},
            }
            proof {
                if asks_to_close(events@, (i + 1) as nat) {
                    let j = choose|j: int|
                        0 <= j < i + 1 && events@[j] == InputEvent::KeyPress(KEY_ESCAPE);
                    if j < i {
                        assert(closing);
                    }
                }
                if closing {
                    let j = choose|j: int|
                        0 <= j < i && events@[j] == InputEvent::KeyPress(KEY_ESCAPE);
                    assert(0 <= j < i + 1 && events@[j] == InputEvent::KeyPress(KEY_ESCAPE));
                }
                if events@[i as int] == InputEvent::KeyPress(KEY_ESCAPE) {
                    assert(asks_to_close(events@, (i + 1) as nat));
                }
            }
            i += 1;
        }
    }

    /// Initialises every component: the init hooks run once for each, in
    /// tick order.
    pub fn init(&mut self)
        requires
            old(self).wf(),
        ensures
            final(self).wf(),
            final(self)@ == (EngineView {
                world: phase_result(old(self)@.world, Phase::Init, 0),
                ..old(self)@
            }),
            same_shape(old(self)@.world.objects, final(self)@.world.objects),
    {
        self.world.run_phase(Phase::Init, TickInfo { delta_time: 0 });
    }

    /// Runs the variable-rate part of a frame: the update hooks of every
    /// component, then the collision pass.
    pub fn game_tick(&mut self, delta_time: i64)
        requires
            old(self).wf(),
        ensures
            final(self).wf(),
            final(self)@ == (EngineView {
                world: game_ticked(old(self)@.world, delta_time as int),
                ..old(self)@
            }),
            same_shape(old(self)@.world.objects, final(self)@.world.objects),
    {
        let ghost before = self@;
        self.world.run_phase(Phase::Update, TickInfo { delta_time });
        let ghost mid = self@;
        self.world.collision_pass();
        proof {
            crate::game_object::lemma_same_shape_trans(
                before.world.objects,
                mid.world.objects,
                self@.world.objects,
            );
        }
    }

    /// Runs a fixed-rate pass: the fixed-update hooks of every component.
    pub fn fixed_game_tick(&mut self, delta_time: i64)
        requires
            old(self).wf(),
        ensures
            final(self).wf(),
            final(self)@ == (EngineView {
                world: fixed_game_ticked(old(self)@.world, delta_time as int),
                ..old(self)@
            }),
            same_shape(old(self)@.world.objects, final(self)@.world.objects),
    {
        self.world.run_phase(Phase::FixedUpdate, TickInfo { delta_time });
    }

    /// Ends the game loop, so that it can be started again.
    pub fn stop_game_loop(&mut self)
        ensures
            final(self)@ == (EngineView { running: false, ..old(self)@ }),
    {
        self.running = false;
    }

    /// Whether the game loop is running.
    pub fn is_running(&self) -> (running: bool)
        ensures
            running == self@.running,
    {
        self.running
    }

    /// Sets the number of fixed-rate passes a second; a rate of zero turns
    /// the fixed-rate pass off.
    pub fn set_fixed_tick_rate(&mut self, tickrate: u32)
        ensures
            final(self)@ == (EngineView {
                fixed_tick_duration: tick_duration(tickrate),
                ..old(self)@
            }),
    {
        self.fixed_tick_duration = if tickrate == 0 {
            u64::MAX
        } else {
            TICKS_PER_SECOND as u64 / tickrate as u64
        };
    }

    /// The root of the scene graph.
    pub fn get_root_object(&self) -> (root: ObjectId)
        ensures
            root == self@.world.root,
    {
        self.world.get_root_object()
    }

    /// The camera and the sprite table.
    pub fn get_gfx(&self) -> (gfx: &Graphics)
        ensures
            gfx@ == self@.world.gfx,
    {
        self.world.get_gfx()
    }

    /// The camera and the sprite table, for changing them.
    pub fn get_gfx_mut(&mut self) -> (gfx: &mut Graphics)
        ensures
            gfx@ == old(self)@.world.gfx,
            final(self)@ == (EngineView {
                world: WorldView { gfx: final(gfx)@, ..old(self)@.world },
                ..old(self)@
            }),
    {
        self.world.get_gfx_mut()
    }

    /// Whether the key with code `key` is down.
    pub fn get_key(&self, key: i32) -> (down: bool)
        ensures
            down == key_down(self@.world.keys, key as int),
    {
        self.world.get_key(key)
    }

    /// The world.
    pub fn get_world(&self) -> (world: &World)
        ensures
            world@ == self@.world,
    {
        &self.world
    }

    /// The world, for changing it.
    pub fn get_world_mut(&mut self) -> (world: &mut World)
        ensures
            world@ == old(self)@.world,
            final(self)@ == (EngineView { world: final(world)@, ..old(self)@ }),
    {
        &mut self.world
    }
}

} // verus!
