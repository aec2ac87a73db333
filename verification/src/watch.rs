//! The watch controller: the decision core of the live-reload loop.
//! Filesystem events, debounce expiry, configuration reloads and pass
//! completions come in; the controller steps a small state machine and
//! answers with the one action the loop should start next.  The loop
//! itself — watching, sleeping, spawning passes — stays outside.
use vstd::prelude::*;

use crate::bytes::B_SLASH;
use crate::bytes::copy_bytes;
use crate::bytes::push_bytes;
use crate::config::Config;
use crate::paths::is_suffix;
use crate::paths::matches_extension;

verus! {

/// Where the control loop stands.
#[derive(Clone, Copy, Debug, PartialEq, Eq, Structural)]
pub enum WatchPhase {
    /// No pending work.
    Idle,
    /// A relevant change arrived; waiting out the quiet period.
    Debouncing,
    /// An orchestration pass is executing.
    Running,
    /// The configuration source changed; reloading before resuming.
    ReloadingConfig,
}

/// What the loop reports to the controller.
#[derive(Clone, Debug, PartialEq)]
pub enum WatchEvent {
    /// A filesystem change under a watched folder, with the changed path.
    StyleChanged { path: Vec<u8> },
    /// The quiet period elapsed with no further relevant events.
    DebounceElapsed,
    /// The configuration source changed.
    ConfigChanged,
    /// A configuration reload finished (the new configuration, if any,
    /// is swapped in separately and atomically).
    ConfigReloaded { ok: bool },
    /// An orchestration pass finished.
    PassFinished { ok: bool },
}

/// What the loop should start next.
#[derive(Clone, Copy, Debug, PartialEq, Eq, Structural)]
pub enum WatchAction {
    Nothing,
    /// Start (or reset) the debounce timer.
    StartDebounce,
    /// Run one orchestration pass with the active configuration.
    StartPass,
    /// Reload the configuration source.
    StartReload,
}

/// A filesystem event is relevant when the changed path ends with one of
/// the configured extensions.
pub open spec fn event_relevant(path: Seq<u8>, c: Config) -> bool {
    exists|k: int| 0 <= k < c.extensions@.len() && is_suffix((#[trigger] c.extensions@[k])@, path)
}

/// The live-reload state: the current phase, the active configuration,
/// and whether a relevant change arrived while a pass or reload was in
/// flight (so that another pass follows).
pub struct WatchController {
    pub phase: WatchPhase,
    pub config: Config,
    pub pending: bool,
}

impl WatchController {
    /// A fresh controller: idle under the given configuration.
    pub fn new(config: Config) -> (r: WatchController)
        ensures
            r.phase is Idle,
            r.config == config,
            !r.pending,
    {
        WatchController { phase: WatchPhase::Idle, config, pending: false }
    }

    /// Replace the active configuration wholesale.  Nothing else moves:
    /// an in-flight cycle finishes under its own phase, and the next
    /// pass reads the new configuration.
    pub fn swap_config(&mut self, config: Config)
        ensures
            final(self).config == config,
            final(self).phase == old(self).phase,
            final(self).pending == old(self).pending,
    {
        self.config = config;
    }

    /// Step the state machine on one event.
    ///
    /// A relevant style change starts or resets the debounce timer when
    /// the loop is idle or already debouncing, and is remembered while a
    /// pass or reload is in flight.  Debounce expiry starts a pass.  A
    /// configuration change always wins: the loop turns to reloading.
    /// When a reload or a pass finishes, a remembered change starts the
    /// next debounce round; otherwise the loop goes idle — after a
    /// failed reload under the previous configuration, which stays.
    pub fn step(&mut self, event: &WatchEvent) -> (action: WatchAction)
        ensures
            final(self).config == old(self).config,
            (event matches WatchEvent::StyleChanged { path } && event_relevant(
                path@,
                old(self).config,
            )) ==> match old(self).phase {
                WatchPhase::Idle => final(self).phase is Debouncing && action is StartDebounce
                    && final(self).pending == old(self).pending,
                WatchPhase::Debouncing => final(self).phase is Debouncing && action
                    is StartDebounce && final(self).pending == old(self).pending,
                WatchPhase::Running => final(self).phase is Running && action is Nothing && final(self).pending,
                WatchPhase::ReloadingConfig => final(self).phase is ReloadingConfig && action
                    is Nothing && final(self).pending,
            },
            (event matches WatchEvent::StyleChanged { path } && !event_relevant(
                path@,
                old(self).config,
            )) ==> final(self).phase == old(self).phase && final(self).pending == old(self).pending
                && action is Nothing,
            event is DebounceElapsed ==> (if old(self).phase is Debouncing {
                final(self).phase is Running && action is StartPass && final(self).pending == old(self).pending
            } else {
                final(self).phase == old(self).phase && final(self).pending == old(self).pending
                    && action is Nothing
            }),
            event is ConfigChanged ==> final(self).phase is ReloadingConfig && action
                is StartReload && final(self).pending == old(self).pending,
            event matches WatchEvent::ConfigReloaded { ok } ==> (if old(self).phase is ReloadingConfig {
                if *ok || old(self).pending {
                    final(self).phase is Debouncing && action is StartDebounce && !final(self).pending
                } else {
                    final(self).phase is Idle && action is Nothing && !final(self).pending
                }
            } else {
                final(self).phase == old(self).phase && final(self).pending == old(self).pending
                    && action is Nothing
            }),
            event is PassFinished ==> (if old(self).phase is Running {
                if old(self).pending {
                    final(self).phase is Debouncing && action is StartDebounce && !final(self).pending
                } else {
                    final(self).phase is Idle && action is Nothing && !final(self).pending
                }
            } else {
                final(self).phase == old(self).phase && final(self).pending == old(self).pending
                    && action is Nothing
            }),
    {
        match event {
            WatchEvent::StyleChanged { path } => {
                if matches_extension(path.as_slice(), &self.config.extensions) {
                    match self.phase {
                        WatchPhase::Idle => {
                            self.phase = WatchPhase::Debouncing;
                            WatchAction::StartDebounce
                        },
                        WatchPhase::Debouncing => WatchAction::StartDebounce,
                        WatchPhase::Running => {
                            self.pending = true;
                            WatchAction::Nothing
                        },
                        WatchPhase::ReloadingConfig => {
                            self.pending = true;
                            WatchAction::Nothing
                        },
                    }
                } else {
                    WatchAction::Nothing
                }
            },
            WatchEvent::DebounceElapsed => {
                match self.phase {
                    WatchPhase::Debouncing => {
                        self.phase = WatchPhase::Running;
                        WatchAction::StartPass
                    },
                    _ => WatchAction::Nothing,
                }
            },
            WatchEvent::ConfigChanged => {
                self.phase = WatchPhase::ReloadingConfig;
                WatchAction::StartReload
            },
            WatchEvent::ConfigReloaded { ok } => {
                match self.phase {
                    WatchPhase::ReloadingConfig => {
                        if *ok || self.pending {
                            self.phase = WatchPhase::Debouncing;
                            self.pending = false;
                            WatchAction::StartDebounce
                        } else {
                            self.phase = WatchPhase::Idle;
                            self.pending = false;
                            WatchAction::Nothing
                        }
                    },
                    _ => WatchAction::Nothing,
                }
            },
            WatchEvent::PassFinished { ok: _ } => {
                match self.phase {
                    WatchPhase::Running => {
                        if self.pending {
                            self.phase = WatchPhase::Debouncing;
                            self.pending = false;
                            WatchAction::StartDebounce
                        } else {
                            self.phase = WatchPhase::Idle;
                            WatchAction::Nothing
                        }
                    },
                    _ => WatchAction::Nothing,
                }
            },
        }
    }
}

/// Join a folder path onto the manifest directory: an absolute path
/// stands alone; otherwise the two are joined with a single slash.
pub open spec fn join_path_spec(dir: Seq<u8>, p: Seq<u8>) -> Seq<u8> {
    if p.len() > 0 && p[0] == B_SLASH {
        p
    } else if dir.len() == 0 || dir.last() == B_SLASH {
        dir + p
    } else {
        dir + seq![B_SLASH] + p
    }
}

/// Join a path onto a directory.
pub fn join_path(dir: &[u8], p: &[u8]) -> (r: Vec<u8>)
    ensures
        r@ == join_path_spec(dir@, p@),
{
    if p.len() > 0 && p[0] == B_SLASH {
        return copy_bytes(p);
    }
    let mut out = copy_bytes(dir);
    if !(dir.len() == 0 || dir[dir.len() - 1] == B_SLASH) {
        out.push(B_SLASH);
    }
    push_bytes(&mut out, p);
    proof {
        assert(out@ =~= join_path_spec(dir@, p@));
    }
    out
}

/// Merge command-line choices over a loaded configuration: an output
/// path given on the command line wins; one from the configuration is
/// taken relative to the manifest directory; a non-empty folder list
/// from the command line replaces the configured folders.
pub fn merge_cli_config(
    config: Config,
    cli_output_file: Option<Vec<u8>>,
    cli_output_dir: Option<Vec<u8>>,
    cli_folders: Vec<Vec<u8>>,
    manifest_dir: &[u8],
) -> (r: Config)
    ensures
        ({
            match cli_output_file {
                Some(p) => r.output_file == Some(p),
                None => match config.output_file {
                    Some(p) => r.output_file is Some && r.output_file->0@ == join_path_spec(
                        manifest_dir@,
                        p@,
                    ),
                    None => r.output_file is None,
                },
            }
        }),
        ({
            match cli_output_dir {
                Some(p) => r.output_dir == Some(p),
                None => match config.output_dir {
                    Some(p) => r.output_dir is Some && r.output_dir->0@ == join_path_spec(
                        manifest_dir@,
                        p@,
                    ),
                    None => r.output_dir is None,
                },
            }
        }),
        cli_folders@.len() > 0 ==> r.folders == cli_folders,
        cli_folders@.len() == 0 ==> r.folders == config.folders,
        r.extensions == config.extensions,
        r.scss_prelude == config.scss_prelude,
        r.hash_len == config.hash_len,
        r.class_name_pattern == config.class_name_pattern,
{
    let output_file = match cli_output_file {
        Some(p) => Some(p),
        None => match config.output_file {
            Some(p) => Some(join_path(manifest_dir, p.as_slice())),
            None => None,
        },
    };
    let output_dir = match cli_output_dir {
        Some(p) => Some(p),
        None => match config.output_dir {
            Some(p) => Some(join_path(manifest_dir, p.as_slice())),
            None => None,
        },
    };
    let folders = if cli_folders.len() > 0 {
        cli_folders
    } else {
        config.folders
    };
    Config {
        output_file,
        output_dir,
        extensions: config.extensions,
        folders,
        scss_prelude: config.scss_prelude,
        hash_len: config.hash_len,
        class_name_pattern: config.class_name_pattern,
    }
}

} // verus!
