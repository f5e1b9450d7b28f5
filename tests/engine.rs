use raven_ecs::path::{as_fs_abs, strip_rune};
use raven_ecs::resource::{Texture, TextureType};
use raven_ecs::time::{Delta, FpsCounter, Stats, NANOS_PER_SECOND};

#[test]
fn fps_counter_reports_once_a_second() {
    let mut c = FpsCounter::new(1_000);
    assert_eq!(c.on_frame(1_000 + 200_000_000), None);
    assert_eq!(c.on_frame(1_000 + 500_000_000), None);
    assert_eq!(c.on_frame(1_000 + 700_000_000), None);
    assert_eq!(
        c.on_frame(1_000 + NANOS_PER_SECOND),
        Some(Stats { fps: 4, time_per_frame: 250_000_000 })
    );
    // A new count began at the last report.
    assert_eq!(c.on_frame(1_000 + NANOS_PER_SECOND + 10), None);
    assert_eq!(
        c.on_frame(1_000 + 3 * NANOS_PER_SECOND),
        Some(Stats { fps: 2, time_per_frame: 500_000_000 })
    );
    // A clock reading before the start counts as no time passed.
    assert_eq!(c.on_frame(0), None);
}

#[test]
fn delta_measures_between_frames() {
    let mut d = Delta::default();
    assert_eq!(d.on_frame(100), None);
    assert_eq!(d.on_frame(350), Some(250));
    assert_eq!(d.on_frame(340), Some(0));
    assert_eq!(d.on_frame(1_340), Some(1_000));
}

#[test]
fn project_paths() {
    assert_eq!(strip_rune("$/ferris/ferris.fbx"), "ferris/ferris.fbx");
    assert_eq!(strip_rune("$//a"), "a");
    assert_eq!(strip_rune("$/"), "");
    assert_eq!(as_fs_abs("/project", "$/ferris/ferris.fbx"), "/project/ferris/ferris.fbx");
    assert_eq!(as_fs_abs("/project/", "$/a.png"), "/project/a.png");
    assert_eq!(as_fs_abs("", "$/a.png"), "a.png");
}

#[test]
fn texture_keeps_its_data() {
    let t = Texture::new(vec![1, 2, 3, 4], [1, 1]);
    assert_eq!(t.raw, vec![1, 2, 3, 4]);
    assert_eq!(t.size, [1, 1]);
    assert_ne!(TextureType::Diffuse, TextureType::Specular);
}
