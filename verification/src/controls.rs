//! The interactive controls shared by the graphical frontends: which key
//! does what, and how each command changes the frontend's state.

use vstd::prelude::*;
use crate::integrator::IntegratorKind;
use crate::preset::Preset;
use crate::cli::ascii_lower;
use crate::hud::hud_integrator_label_spec;

verus! {

/// The fastest time multiplier: simulation steps per frame.
pub const MAX_SPEED: usize = 64;

/// What the user can ask of a frontend.
#[derive(Debug, Clone, Copy, PartialEq, Eq, Structural)]
pub enum Command {
    /// Load a preset (from its initial state).
    SelectPreset(Preset),
    /// Switch the integrator of the running simulation.
    SelectIntegrator(IntegratorKind),
    /// Pause or resume.
    TogglePause,
    /// Reload the current preset.
    Reset,
    /// One more step per frame.
    SpeedUp,
    /// One step fewer per frame.
    SlowDown,
    /// Close the frontend.
    Quit,
}

/// What the frontend must do after a command, besides redrawing.
#[derive(Debug, Clone, Copy, PartialEq, Eq, Structural)]
pub enum Effect {
    /// Nothing more.
    Keep,
    /// Rebuild the simulation from the current preset.
    Rebuild,
    /// Exit.
    Exit,
}

/// The user-controlled part of a frontend's state.
#[derive(Debug, Clone, Copy, PartialEq, Eq, Structural)]
pub struct Controls {
    pub preset: Preset,
    pub integrator: IntegratorKind,
    pub paused: bool,
    /// Simulation steps per frame.
    pub speed: usize,
}

/// The command bound to a key that types the characters `key`: the digits
/// `1` to `4` select a preset, `e`, `v` and `l` an integrator, `p` pauses,
/// `r` resets, `+` or `=` speeds up and `-` slows down.
pub open spec fn key_command_spec(key: Seq<char>) -> Option<Command> {
    if key.len() != 1 {
        None
    } else {
        match key[0] {
            '1' => Some(Command::SelectPreset(Preset::SolarSystem)),
            '2' => Some(Command::SelectPreset(Preset::Binary)),
            '3' => Some(Command::SelectPreset(Preset::FigureEight)),
            '4' => Some(Command::SelectPreset(Preset::RandomCluster)),
            'e' => Some(Command::SelectIntegrator(IntegratorKind::Euler)),
            'v' => Some(Command::SelectIntegrator(IntegratorKind::Verlet)),
            'l' => Some(Command::SelectIntegrator(IntegratorKind::Leapfrog)),
            'p' => Some(Command::TogglePause),
            'r' => Some(Command::Reset),
            '+' => Some(Command::SpeedUp),
            '=' => Some(Command::SpeedUp),
            '-' => Some(Command::SlowDown),
            _ => None,
        }
    }
}

/// The command of a released key that types `key`, if it has one.
pub fn key_command(key: &str) -> (c: Option<Command>)
    ensures
        c == key_command_spec(key@),
{
    if key.unicode_len() != 1 {
        return None;
    }
    match key.get_char(0) {
        '1' => Some(Command::SelectPreset(Preset::SolarSystem)),
        '2' => Some(Command::SelectPreset(Preset::Binary)),
        '3' => Some(Command::SelectPreset(Preset::FigureEight)),
        '4' => Some(Command::SelectPreset(Preset::RandomCluster)),
        'e' => Some(Command::SelectIntegrator(IntegratorKind::Euler)),
        'v' => Some(Command::SelectIntegrator(IntegratorKind::Verlet)),
        'l' => Some(Command::SelectIntegrator(IntegratorKind::Leapfrog)),
        'p' => Some(Command::TogglePause),
        'r' => Some(Command::Reset),
        '+' => Some(Command::SpeedUp),
        '=' => Some(Command::SpeedUp),
        '-' => Some(Command::SlowDown),
        _ => None,
    }
}

/// The state after a command, and what the frontend must do.
pub open spec fn after_command(s: Controls, cmd: Command) -> (Controls, Effect) {
    match cmd {
        Command::SelectPreset(p) => (Controls { preset: p, ..s }, Effect::Rebuild),
        Command::SelectIntegrator(k) => (Controls { integrator: k, ..s }, Effect::Keep),
        Command::TogglePause => (Controls { paused: !s.paused, ..s }, Effect::Keep),
        Command::Reset => (s, Effect::Rebuild),
        Command::SpeedUp => (
            Controls { speed: if s.speed + 1 < MAX_SPEED { (s.speed + 1) as usize } else { MAX_SPEED }, ..s },
            Effect::Keep,
        ),
        Command::SlowDown => (Controls { speed: if s.speed > 1 { (s.speed - 1) as usize } else { 1 }, ..s }, Effect::Keep),
        Command::Quit => (s, Effect::Exit),
    }
}

impl Controls {
    /// The state of a frontend when it starts: the solar system, velocity
    /// Verlet, running at two steps per frame.
    pub fn initial() -> (c: Controls)
        ensures
            c == (Controls {
                preset: Preset::SolarSystem,
                integrator: IntegratorKind::Verlet,
                paused: false,
                speed: 2,
            }),
    {
        Controls { preset: Preset::SolarSystem, integrator: IntegratorKind::Verlet, paused: false, speed: 2 }
    }

    /// Carries out `cmd`, and says what else the frontend must do.
    pub fn apply(&mut self, cmd: Command) -> (e: Effect)
        ensures
            (*final(self), e) == after_command(*old(self), cmd),
    {
        match cmd {
            Command::SelectPreset(p) => {
                self.preset = p;
                Effect::Rebuild
            },
            Command::SelectIntegrator(k) => {
                self.integrator = k;
                Effect::Keep
            },
            Command::TogglePause => {
                self.paused = !self.paused;
                Effect::Keep
            },
            Command::Reset => Effect::Rebuild,
            Command::SpeedUp => {
                self.speed = if self.speed < MAX_SPEED - 1 { self.speed + 1 } else { MAX_SPEED };
                Effect::Keep
            },
            Command::SlowDown => {
                self.speed = if self.speed > 1 { self.speed - 1 } else { 1 };
                Effect::Keep
            },
            Command::Quit => Effect::Exit,
        }
    }
}

/// The work of one frame: how many simulation steps to take, and whether to
/// merge colliding bodies afterwards.
#[derive(Debug, Clone, Copy, PartialEq, Eq, Structural)]
pub struct FramePlan {
    pub steps: usize,
    pub merge: bool,
}

impl Controls {
    /// A running simulation takes `speed` steps per frame, then merges the
    /// bodies that collide; a paused one does nothing.
    pub fn frame_plan(&self) -> (plan: FramePlan)
        ensures
            plan == (if self.paused {
                FramePlan { steps: 0, merge: false }
            } else {
                FramePlan { steps: self.speed, merge: true }
            }),
    {
        if self.paused {
            FramePlan { steps: 0, merge: false }
        } else {
            FramePlan { steps: self.speed, merge: true }
        }
    }
}

/// Whatever the commands, the speed stays between one and `MAX_SPEED`
/// steps per frame once it is there.
pub proof fn lemma_speed_stays_in_range(s: Controls, cmd: Command)
    requires
        1 <= s.speed <= MAX_SPEED,
    ensures
        1 <= after_command(s, cmd).0.speed <= MAX_SPEED,
{
}

/// Pausing twice gives back the state one started from.
pub proof fn lemma_pause_twice(s: Controls)
    ensures
        after_command(after_command(s, Command::TogglePause).0, Command::TogglePause).0 == s,
{
}

/// Below the top speed, speeding up then slowing down changes nothing; above
/// the bottom speed, slowing down then speeding up changes nothing.
pub proof fn lemma_speed_round_trip(s: Controls)
    ensures
        1 <= s.speed < MAX_SPEED ==> after_command(after_command(s, Command::SpeedUp).0, Command::SlowDown).0 == s,
        1 < s.speed <= MAX_SPEED ==> after_command(after_command(s, Command::SlowDown).0, Command::SpeedUp).0 == s,
{
}

/// Only preset selection and reset rebuild the simulation, only quitting
/// exits, and no command other than selecting one changes the preset.
pub proof fn lemma_command_effects(s: Controls, cmd: Command)
    ensures
        (after_command(s, cmd).1 == Effect::Rebuild) <==> (cmd is SelectPreset || cmd is Reset),
        (after_command(s, cmd).1 == Effect::Exit) <==> cmd is Quit,
        !(cmd is SelectPreset) ==> after_command(s, cmd).0.preset == s.preset,
{
}

/// Each command does what it names and leaves the rest of the state alone:
/// selecting a preset or an integrator selects exactly that one, pausing
/// flips the pause, the speed moves by one step within its range, and
/// reset and quit change nothing.
pub proof fn lemma_commands_do_what_they_say(s: Controls, cmd: Command)
    ensures
        ({
            let n = after_command(s, cmd).0;
            match cmd {
                Command::SelectPreset(p) => n.preset == p && n.integrator == s.integrator && n.paused == s.paused
                    && n.speed == s.speed,
                Command::SelectIntegrator(k) => n.integrator == k && n.preset == s.preset && n.paused == s.paused
                    && n.speed == s.speed,
                Command::TogglePause => n.paused != s.paused && n.preset == s.preset && n.integrator
                    == s.integrator && n.speed == s.speed,
                Command::SpeedUp => n.speed == (if s.speed + 1 < MAX_SPEED { s.speed + 1 } else { MAX_SPEED as int }),
                Command::SlowDown => n.speed == (if s.speed > 1 { s.speed - 1 } else { 1 }),
                Command::Reset => n == s,
                Command::Quit => n == s,
            }
        }),
        !(cmd is SpeedUp || cmd is SlowDown) ==> after_command(s, cmd).0.speed == s.speed,
{
}

/// The number keys `1` to `4` select the presets in the order of
/// `Preset::ALL`.
pub proof fn lemma_number_keys_follow_preset_order(i: int)
    requires
        0 <= i < 4,
    ensures
        key_command_spec(seq![(('1' as int) + i) as char]) == Some(Command::SelectPreset(Preset::ALL[i])),
{
}

/// The key of each integrator is the initial of its name on the panel,
/// typed in lower case.
pub proof fn lemma_integrator_keys_are_initials(k: IntegratorKind)
    ensures
        key_command_spec(seq![ascii_lower(hud_integrator_label_spec(k)[0])]) == Some(Command::SelectIntegrator(k)),
{
    reveal_strlit("EULER");
    reveal_strlit("VERLET");
    reveal_strlit("LEAPFROG");
}

} // verus!
