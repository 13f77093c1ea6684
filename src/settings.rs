use vstd::prelude::*;

use configparser::ini::Ini;

verus! {

#[verifier::external_type_specification]
#[verifier::external_body]
pub struct ExIni(configparser::ini::Ini);

/// Relies on configparser's `Ini::sections`: the names of the sections held,
/// in no particular order.
#[verifier::external_body]
fn ini_sections(config: &Ini) -> Vec<String> {
    config.sections()
}

/// Relies on configparser's `Ini::set`: stores `value` under `section` and `key`.
#[verifier::external_body]
fn ini_set(config: &mut Ini, section: &str, key: &str, value: Option<String>) {
    config.set(section, key, value);
}

/// Relies on configparser's `Ini::getbool`: the value under `section` and
/// `key` read as `true` or `false`; `Ok(None)` when absent, `Err` when it is neither.
#[verifier::external_body]
fn ini_getbool(config: &Ini, section: &str, key: &str) -> Result<Option<bool>, String> {
    config.getbool(section, key)
}

/// Relies on configparser's `Ini::getuint`: the value under `section` and
/// `key` read as a `u64`; `Ok(None)` when absent, `Err` when it is not one.
#[verifier::external_body]
fn ini_getuint(config: &Ini, section: &str, key: &str) -> Result<Option<u64>, String> {
    config.getuint(section, key)
}

/// Relies on `num_cpus::get`: the number of logical cores available, at least 1.
#[verifier::external_body]
fn cpu_count() -> (r: usize)
    ensures
        r >= 1,
{
    num_cpus::get()
}

/// Whether `name` is among `names`.
fn has_section(names: &Vec<String>, name: &String) -> (r: bool)
    ensures
        r == exists|i: int| 0 <= i < names@.len() && (#[trigger] names@[i])@ == name@,
{
    let mut i: usize = 0;
    while i < names.len()
        invariant
            i <= names@.len(),
            forall|j: int| 0 <= j < i ==> (#[trigger] names@[j])@ != name@,
        decreases names@.len() - i,
    {
        if names[i] == *name {
            return true;
        }
        i = i + 1;
    }
    false
}

/// A loaded boolean, or `default` when it was absent or unreadable.
pub open spec fn bool_or(v: Result<Option<bool>, String>, default: bool) -> bool {
    match v {
        Ok(Some(b)) => b,
        _ => default,
    }
}

/// A loaded count, or `default` when it was absent or unreadable.
pub open spec fn uint_or(v: Result<Option<u64>, String>, default: usize) -> usize {
    match v {
        Ok(Some(n)) => n as usize,
        _ => default,
    }
}

fn read_bool(v: Result<Option<bool>, String>, default: bool) -> (r: bool)
    ensures
        r == bool_or(v, default),
{
    match v {
        Ok(Some(b)) => b,
        _ => default,
    }
}

fn read_uint(v: Result<Option<u64>, String>, default: usize) -> (r: usize)
    ensures
        r == uint_or(v, default),
{
    match v {
        Ok(Some(n)) => n as usize,
        _ => default,
    }
}

/// `n` clamped to `[0, cores]`.
pub open spec fn thread_count_spec(n: i32, cores: usize) -> usize {
    if n < 0 { 0 } else if n >= cores { cores } else { n as usize }
}

/// Frame-rate and threading preferences.
pub struct AdvancedSettings {
    pub limit_fps: bool,
    pub max_fps: usize,
    pub per_key_thread_count: usize,
    pub per_chan_thread_count: usize,
}

impl AdvancedSettings {
    /// The defaults: frame rate limited to 60, one thread per key, automatic
    /// threads per channel (0).
    pub fn new() -> (r: Self)
        ensures
            r.limit_fps,
            r.max_fps == 60,
            r.per_key_thread_count == 1,
            r.per_chan_thread_count == 0,
    {
        AdvancedSettings { limit_fps: true, max_fps: 60, per_key_thread_count: 1, per_chan_thread_count: 0 }
    }

    /// Sets the frame-rate limit, never below 15.
    pub fn set_max_fps(&mut self, max_fps: i32)
        ensures
            final(self).max_fps == if max_fps < 15 { 15 } else { max_fps as usize },
            final(self).limit_fps == old(self).limit_fps,
            final(self).per_key_thread_count == old(self).per_key_thread_count,
            final(self).per_chan_thread_count == old(self).per_chan_thread_count,
    {
        let v: i32 = if max_fps < 15 { 15 } else { max_fps };
        self.max_fps = v as usize;
    }

    /// Sets the synthesizer's threads per key to `n`, within `[0, cores]`.
    pub fn set_per_key_thread_count_for(&mut self, n: i32, cores: usize)
        ensures
            final(self).per_key_thread_count == thread_count_spec(n, cores),
            final(self).per_chan_thread_count == old(self).per_chan_thread_count,
            final(self).max_fps == old(self).max_fps,
            final(self).limit_fps == old(self).limit_fps,
    {
        self.per_key_thread_count = clamp_threads(n, cores);
    }

    /// Sets the synthesizer's threads per channel to `n`, within `[0, cores]`.
    pub fn set_per_chan_thread_count_for(&mut self, n: i32, cores: usize)
        ensures
            final(self).per_chan_thread_count == thread_count_spec(n, cores),
            final(self).per_key_thread_count == old(self).per_key_thread_count,
            final(self).max_fps == old(self).max_fps,
            final(self).limit_fps == old(self).limit_fps,
    {
        self.per_chan_thread_count = clamp_threads(n, cores);
    }

    /// Sets the threads per key to `n`, within the machine's core count.
    pub fn set_per_key_thread_count(&mut self, n: i32)
        ensures
            exists|cores: usize| cores >= 1 && final(self).per_key_thread_count == #[trigger] thread_count_spec(n, cores),
            final(self).per_chan_thread_count == old(self).per_chan_thread_count,
    {
        let cores = cpu_count();
        self.set_per_key_thread_count_for(n, cores);
    }

    /// Sets the threads per channel to `n`, within the machine's core count.
    pub fn set_per_chan_thread_count(&mut self, n: i32)
        ensures
            exists|cores: usize| cores >= 1 && final(self).per_chan_thread_count == #[trigger] thread_count_spec(n, cores),
            final(self).per_key_thread_count == old(self).per_key_thread_count,
    {
        let cores = cpu_count();
        self.set_per_chan_thread_count_for(n, cores);
    }

    /// Takes the values read from a configuration, each falling back to its
    /// default when absent or unreadable.
    pub fn apply_loaded(
        &mut self,
        limit_fps: Result<Option<bool>, String>,
        max_fps: Result<Option<u64>, String>,
        per_key: Result<Option<u64>, String>,
        per_chan: Result<Option<u64>, String>,
    )
        ensures
            final(self).limit_fps == bool_or(limit_fps, true),
            final(self).max_fps == uint_or(max_fps, 60),
            final(self).per_key_thread_count == uint_or(per_key, 1),
            final(self).per_chan_thread_count == uint_or(per_chan, 0),
    {
        self.limit_fps = read_bool(limit_fps, true);
        self.max_fps = read_uint(max_fps, 60);
        self.per_key_thread_count = read_uint(per_key, 1);
        self.per_chan_thread_count = read_uint(per_chan, 0);
    }

    /// Reads the `advanced` section of `config`; when it is missing, writes
    /// the current values there instead and keeps them.
    pub fn load_settings(&mut self, config: &mut Ini)
        ensures
            *final(self) == *old(self) || exists|l: Result<Option<bool>, String>, m: Result<Option<u64>, String>,
                k: Result<Option<u64>, String>, c: Result<Option<u64>, String>| {
                &&& final(self).limit_fps == #[trigger] bool_or(l, true)
                &&& final(self).max_fps == #[trigger] uint_or(m, 60)
                &&& final(self).per_key_thread_count == #[trigger] uint_or(k, 1)
                &&& final(self).per_chan_thread_count == #[trigger] uint_or(c, 0)
            },
    {
        let names = ini_sections(config);
        if !has_section(&names, &String::from_str("advanced")) {
            self.save_settings(config);
        } else {
            let limit = ini_getbool(config, "advanced", "limit_fps");
            let max = ini_getuint(config, "advanced", "max_fps");
            let per_key = ini_getuint(config, "advanced", "per_key_thread_count");
            let per_chan = ini_getuint(config, "advanced", "per_chan_thread_count");
            self.apply_loaded(limit, max, per_key, per_chan);
        }
    }

    /// Writes the values into the `advanced` section of `config`.
    pub fn save_settings(&self, config: &mut Ini) {
        ini_set(config, "advanced", "limit_fps", Some(self.limit_fps.to_string()));
        ini_set(config, "advanced", "max_fps", Some(self.max_fps.to_string()));
        ini_set(config, "advanced", "per_key_thread_count", Some(self.per_key_thread_count.to_string()));
        ini_set(config, "advanced", "per_chan_thread_count", Some(self.per_chan_thread_count.to_string()));
    }
}

fn clamp_threads(n: i32, cores: usize) -> (r: usize)
    ensures
        r == thread_count_spec(n, cores),
{
    if n < 0 {
        0
    } else if n as usize >= cores {
        cores
    } else {
        n as usize
    }
}

/// Player preferences.
pub struct PlayerSettings {
    pub show_ui: bool,
    pub tick_based: bool,
    pub fullscreen: bool,
}

impl PlayerSettings {
    /// The defaults: interface shown, tick-based note times, windowed.
    pub fn new() -> (r: Self)
        ensures
            r.show_ui && r.tick_based && !r.fullscreen,
    {
        PlayerSettings { show_ui: true, tick_based: true, fullscreen: false }
    }

    /// Takes the values read from a configuration, each falling back to
    /// `true` when absent or unreadable.
    pub fn apply_loaded(&mut self, show_ui: Result<Option<bool>, String>, tick_based: Result<Option<bool>, String>)
        ensures
            final(self).show_ui == bool_or(show_ui, true),
            final(self).tick_based == bool_or(tick_based, true),
            final(self).fullscreen == old(self).fullscreen,
    {
        self.show_ui = read_bool(show_ui, true);
        self.tick_based = read_bool(tick_based, true);
    }

    /// Reads the `player` section of `config`; when it is missing, writes the
    /// defaults there instead and keeps the current values.
    pub fn load_settings(&mut self, config: &mut Ini)
        ensures
            final(self).fullscreen == old(self).fullscreen,
            *final(self) == *old(self) || exists|a: Result<Option<bool>, String>, b: Result<Option<bool>, String>| {
                &&& final(self).show_ui == #[trigger] bool_or(a, true)
                &&& final(self).tick_based == #[trigger] bool_or(b, true)
            },
    {
        let names = ini_sections(config);
        if !has_section(&names, &String::from_str("player")) {
            ini_set(config, "player", "show_ui", Some(true.to_string()));
            ini_set(config, "player", "tick_based", Some(true.to_string()));
        } else {
            let show = ini_getbool(config, "player", "show_ui");
            let tick = ini_getbool(config, "player", "tick_based");
            self.apply_loaded(show, tick);
        }
    }

    /// Writes the values into the `player` section of `config`.
    pub fn save_settings(&self, config: &mut Ini) {
        ini_set(config, "player", "show_ui", Some(self.show_ui.to_string()));
        ini_set(config, "player", "tick_based", Some(self.tick_based.to_string()));
    }
}

} // verus!
