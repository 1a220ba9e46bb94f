use gravity::cli::{is_report_step, parse_integrator, parse_preset, report_every};
use gravity::controls::{key_command, Command, Controls, Effect, FramePlan, MAX_SPEED};
use gravity::integrator::IntegratorKind;
use gravity::preset::Preset;

#[test]
fn keys_map_to_commands() {
    assert_eq!(key_command("1"), Some(Command::SelectPreset(Preset::SolarSystem)));
    assert_eq!(key_command("2"), Some(Command::SelectPreset(Preset::Binary)));
    assert_eq!(key_command("3"), Some(Command::SelectPreset(Preset::FigureEight)));
    assert_eq!(key_command("4"), Some(Command::SelectPreset(Preset::RandomCluster)));
    assert_eq!(key_command("e"), Some(Command::SelectIntegrator(IntegratorKind::Euler)));
    assert_eq!(key_command("v"), Some(Command::SelectIntegrator(IntegratorKind::Verlet)));
    assert_eq!(key_command("l"), Some(Command::SelectIntegrator(IntegratorKind::Leapfrog)));
    assert_eq!(key_command("p"), Some(Command::TogglePause));
    assert_eq!(key_command("r"), Some(Command::Reset));
    assert_eq!(key_command("+"), Some(Command::SpeedUp));
    assert_eq!(key_command("="), Some(Command::SpeedUp));
    assert_eq!(key_command("-"), Some(Command::SlowDown));
    assert_eq!(key_command("E"), None);
    assert_eq!(key_command("5"), None);
    assert_eq!(key_command(""), None);
    assert_eq!(key_command("11"), None);
}

#[test]
fn commands_update_the_controls() {
    let mut c = Controls::initial();
    assert_eq!(c.preset, Preset::SolarSystem);
    assert_eq!(c.integrator, IntegratorKind::Verlet);
    assert!(!c.paused);
    assert_eq!(c.speed, 2);
    assert_eq!(c.apply(Command::SelectPreset(Preset::Binary)), Effect::Rebuild);
    assert_eq!(c.preset, Preset::Binary);
    assert_eq!(c.apply(Command::SelectIntegrator(IntegratorKind::Euler)), Effect::Keep);
    assert_eq!(c.integrator, IntegratorKind::Euler);
    assert_eq!(c.apply(Command::Reset), Effect::Rebuild);
    assert_eq!(c.preset, Preset::Binary);
    assert_eq!(c.apply(Command::TogglePause), Effect::Keep);
    assert!(c.paused);
    c.apply(Command::TogglePause);
    assert!(!c.paused);
    assert_eq!(c.apply(Command::Quit), Effect::Exit);
}

#[test]
fn speed_stays_between_one_and_sixty_four() {
    let mut c = Controls::initial();
    for _ in 0..100 {
        c.apply(Command::SpeedUp);
    }
    assert_eq!(c.speed, MAX_SPEED);
    assert_eq!(MAX_SPEED, 64);
    for _ in 0..100 {
        c.apply(Command::SlowDown);
    }
    assert_eq!(c.speed, 1);
    c.speed = 0;
    c.apply(Command::SlowDown);
    assert_eq!(c.speed, 1);
    c.speed = 500;
    c.apply(Command::SpeedUp);
    assert_eq!(c.speed, 64);
}

#[test]
fn command_line_names() {
    assert_eq!(parse_preset("solar"), Some(Preset::SolarSystem));
    assert_eq!(parse_preset("SOLAR"), Some(Preset::SolarSystem));
    assert_eq!(parse_preset("binary"), Some(Preset::Binary));
    assert_eq!(parse_preset("Eight"), Some(Preset::FigureEight));
    assert_eq!(parse_preset("figureEight"), Some(Preset::FigureEight));
    assert_eq!(parse_preset("cluster"), Some(Preset::RandomCluster));
    assert_eq!(parse_preset("random"), Some(Preset::RandomCluster));
    assert_eq!(parse_preset("solar "), None);
    assert_eq!(parse_preset(""), None);
    assert_eq!(parse_integrator("euler"), Some(IntegratorKind::Euler));
    assert_eq!(parse_integrator("Verlet"), Some(IntegratorKind::Verlet));
    assert_eq!(parse_integrator("LEAPFROG"), Some(IntegratorKind::Leapfrog));
    assert_eq!(parse_integrator("rk4"), None);
}

#[test]
fn report_schedule() {
    assert_eq!(report_every(2000), 50);
    assert_eq!(report_every(10), 1);
    assert_eq!(report_every(0), 1);
    assert_eq!(report_every(80), 2);
    assert!(is_report_step(50, 2000));
    assert!(!is_report_step(51, 2000));
    assert!(is_report_step(2000, 2000));
    assert!(is_report_step(7, 7));
    assert!(is_report_step(3, 10));
}

#[test]
fn frame_plan_follows_pause_and_speed() {
    let mut c = Controls::initial();
    assert_eq!(c.frame_plan(), FramePlan { steps: 2, merge: true });
    c.apply(Command::SpeedUp);
    assert_eq!(c.frame_plan(), FramePlan { steps: 3, merge: true });
    c.apply(Command::TogglePause);
    assert_eq!(c.frame_plan(), FramePlan { steps: 0, merge: false });
}
