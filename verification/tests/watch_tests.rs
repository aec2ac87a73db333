use stylance::config::Config;
use stylance::paths::{matches_extension, out_file_name};
use stylance::watch::{
    join_path, merge_cli_config, WatchAction, WatchController, WatchEvent, WatchPhase,
};

fn s(v: &[u8]) -> String {
    String::from_utf8(v.to_vec()).unwrap()
}

fn style_event(path: &str) -> WatchEvent {
    WatchEvent::StyleChanged { path: path.as_bytes().to_vec() }
}

#[test]
fn watch_debounces_then_runs() {
    let mut c = WatchController::new(Config::default());
    assert_eq!(c.phase, WatchPhase::Idle);

    let a = c.step(&style_event("src/a.module.scss"));
    assert_eq!(a, WatchAction::StartDebounce);
    assert_eq!(c.phase, WatchPhase::Debouncing);

    // a further relevant event resets the quiet period
    let a = c.step(&style_event("src/b.module.css"));
    assert_eq!(a, WatchAction::StartDebounce);
    assert_eq!(c.phase, WatchPhase::Debouncing);

    let a = c.step(&WatchEvent::DebounceElapsed);
    assert_eq!(a, WatchAction::StartPass);
    assert_eq!(c.phase, WatchPhase::Running);

    let a = c.step(&WatchEvent::PassFinished { ok: true });
    assert_eq!(a, WatchAction::Nothing);
    assert_eq!(c.phase, WatchPhase::Idle);
}

#[test]
fn watch_ignores_unrelated_paths() {
    let mut c = WatchController::new(Config::default());
    let a = c.step(&style_event("src/readme.txt"));
    assert_eq!(a, WatchAction::Nothing);
    assert_eq!(c.phase, WatchPhase::Idle);
}

#[test]
fn watch_remembers_changes_during_a_pass() {
    let mut c = WatchController::new(Config::default());
    c.step(&style_event("src/a.module.scss"));
    c.step(&WatchEvent::DebounceElapsed);
    assert_eq!(c.phase, WatchPhase::Running);

    // a change while the pass runs does not interrupt it
    let a = c.step(&style_event("src/b.module.scss"));
    assert_eq!(a, WatchAction::Nothing);
    assert_eq!(c.phase, WatchPhase::Running);

    // but the next round starts as soon as the pass is done
    let a = c.step(&WatchEvent::PassFinished { ok: true });
    assert_eq!(a, WatchAction::StartDebounce);
    assert_eq!(c.phase, WatchPhase::Debouncing);
}

#[test]
fn watch_reloads_configuration() {
    let mut c = WatchController::new(Config::default());
    let a = c.step(&WatchEvent::ConfigChanged);
    assert_eq!(a, WatchAction::StartReload);
    assert_eq!(c.phase, WatchPhase::ReloadingConfig);

    let mut new_config = Config::default();
    new_config.hash_len = 9;
    c.swap_config(new_config);
    assert_eq!(c.config.hash_len, 9);

    // a successful reload triggers the next pass cycle
    let a = c.step(&WatchEvent::ConfigReloaded { ok: true });
    assert_eq!(a, WatchAction::StartDebounce);
    assert_eq!(c.phase, WatchPhase::Debouncing);
}

#[test]
fn watch_keeps_old_configuration_on_failed_reload() {
    let mut c = WatchController::new(Config::default());
    c.step(&WatchEvent::ConfigChanged);
    let a = c.step(&WatchEvent::ConfigReloaded { ok: false });
    assert_eq!(a, WatchAction::Nothing);
    assert_eq!(c.phase, WatchPhase::Idle);
    assert_eq!(c.config.hash_len, 7);
}

#[test]
fn cli_arguments_override_configuration() {
    let mut config = Config::default();
    config.output_file = Some(b"styles/bundle.scss".to_vec());
    let merged = merge_cli_config(
        config,
        None,
        Some(b"/tmp/out".to_vec()),
        vec![b"./styles/".to_vec()],
        b"/proj",
    );
    assert_eq!(s(merged.output_file.as_ref().unwrap()), "/proj/styles/bundle.scss");
    assert_eq!(s(merged.output_dir.as_ref().unwrap()), "/tmp/out");
    assert_eq!(merged.folders.len(), 1);
    assert_eq!(s(&merged.folders[0]), "./styles/");
}

#[test]
fn join_path_handles_separators() {
    assert_eq!(s(&join_path(b"/proj", b"out.css")), "/proj/out.css");
    assert_eq!(s(&join_path(b"/proj/", b"out.css")), "/proj/out.css");
    assert_eq!(s(&join_path(b"/proj", b"/abs/out.css")), "/abs/out.css");
    assert_eq!(s(&join_path(b"", b"out.css")), "out.css");
}

#[test]
fn extension_matching_is_suffix_based() {
    let exts = vec![b".module.css".to_vec(), b".module.scss".to_vec()];
    assert!(matches_extension(b"a/b/c.module.css", &exts));
    assert!(matches_extension(b"c.module.scss", &exts));
    assert!(!matches_extension(b"c.module.sass", &exts));
    assert!(!matches_extension(b"c.css", &exts));
}

#[test]
fn generated_names_carry_stem_digest_and_extension() {
    assert_eq!(s(&out_file_name(b"src/a.module.scss", b"abc1234")), "a.module-abc1234.scss");
    assert_eq!(s(&out_file_name(b"src/b.module.css", b"ffff")), "b.module-ffff.css");
    assert_eq!(s(&out_file_name(b"noext", b"h")), "noext-h.scss");
}
