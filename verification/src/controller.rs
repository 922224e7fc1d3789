//! The decisions behind the window's buttons: starting and stopping the
//! daemon, saving, the theme and language switches, and the status texts.
use vstd::prelude::*;
use crate::text::str_eq;
use crate::model::{rules_of, Model, Rule};
use vstd::string::StringExecFns;

verus! {

/// What the start/stop button does.
#[derive(Debug)]
pub enum StartStop {
    /// Tell the running daemon to shut down; turn the system proxy off if asked.
    Stop { disable_proxy: bool },
    /// Spawn a daemon listening on `listen_addr` with `rules`; point the
    /// system proxy at it if asked.
    Start { listen_addr: String, enable_proxy: bool, rules: Vec<Rule> },
}

/// What saving the settings does to the daemon.
#[derive(Debug)]
pub enum SaveAction {
    /// The daemon is left alone: none runs, or the settings could not be written.
    Idle,
    /// The daemon keeps its address and takes `rules`.
    UpdateRules { rules: Vec<Rule> },
    /// The address changed: shut the daemon down and spawn one on
    /// `listen_addr` with `rules`.
    Restart { listen_addr: String, rules: Vec<Rule> },
}

/// The daemon slot: the listen address of the running daemon, if one runs.
pub struct DaemonSlot {
    pub running: Option<String>,
}

impl View for DaemonSlot {
    type V = Option<Seq<char>>;

    open spec fn view(&self) -> Option<Seq<char>> {
        match self.running {
            Some(a) => Some(a@),
            None => None,
        }
    }
}

/// The slot after the start/stop button: a running daemon stops, otherwise
/// one starts on the entered address.
pub open spec fn after_start_stop(slot: Option<Seq<char>>, listen: Seq<char>) -> Option<
    Seq<char>,
> {
    if slot is Some {
        None
    } else {
        Some(listen)
    }
}

/// The slot after saving: when the settings were written, a running daemon
/// ends up on the saved address; otherwise, and for a stopped daemon, nothing changes.
pub open spec fn after_save(slot: Option<Seq<char>>, listen: Seq<char>, written: bool) -> Option<
    Seq<char>,
> {
    if !written {
        slot
    } else if slot is Some {
        Some(listen)
    } else {
        None
    }
}

/// `a` spawns a daemon on `listen` with `rules`, turning the system proxy on
/// exactly when `proxy`.
pub open spec fn starts_on(a: StartStop, listen: Seq<char>, proxy: bool, rules: Seq<Rule>) -> bool {
    match a {
        StartStop::Start { listen_addr, enable_proxy, rules: r } => listen_addr@ == listen
            && enable_proxy == proxy && r@ == rules,
        _ => false,
    }
}

/// `a` hands the running daemon `rules`.
pub open spec fn updates_with(a: SaveAction, rules: Seq<Rule>) -> bool {
    match a {
        SaveAction::UpdateRules { rules: r } => r@ == rules,
        _ => false,
    }
}

/// `a` restarts the daemon on `listen` with `rules`.
pub open spec fn restarts_on(a: SaveAction, listen: Seq<char>, rules: Seq<Rule>) -> bool {
    match a {
        SaveAction::Restart { listen_addr, rules: r } => listen_addr@ == listen && r@ == rules,
        _ => false,
    }
}

/// An empty slot: no daemon runs.
pub fn new_daemon_slot() -> (s: DaemonSlot)
    ensures
        s@ == None::<Seq<char>>,
{
    DaemonSlot { running: None }
}

impl DaemonSlot {
    /// Whether a daemon runs.
    pub fn is_running(&self) -> (b: bool)
        ensures
            b == (self@ is Some),
    {
        self.running.is_some()
    }

    /// The start/stop button, with `listen_input` the entered listen address,
    /// `auto_proxy` whether the system proxy box is checked, and `model` the
    /// rule table whose rules a started daemon gets.
    pub fn start_stop(&mut self, listen_input: &str, auto_proxy: bool, model: &Model) -> (a:
        StartStop)
        ensures
            final(self)@ == after_start_stop(old(self)@, listen_input@),
            old(self)@ is Some ==> a == (StartStop::Stop { disable_proxy: auto_proxy }),
            old(self)@ is None ==> starts_on(a, listen_input@, auto_proxy, model.rules()),
    {
        if self.running.is_some() {
            self.running = None;
            StartStop::Stop { disable_proxy: auto_proxy }
        } else {
            self.running = Some(listen_input.to_owned());
            StartStop::Start {
                listen_addr: listen_input.to_owned(),
                enable_proxy: auto_proxy,
                rules: rules_of(model),
            }
        }
    }

    /// Saving with `listen_addr` as the listen address, where `written` says
    /// whether the settings were written: if they were not, the daemon is left
    /// alone; otherwise a running daemon on the same address takes the new
    /// rules, and one on another address is restarted.
    /// The saved rules are `rules`, which the daemon gets.
    pub fn save(&mut self, listen_addr: &str, written: bool, rules: Vec<Rule>) -> (a: SaveAction)
        ensures
            final(self)@ == after_save(old(self)@, listen_addr@, written),
            (!written || old(self)@ is None) ==> a == SaveAction::Idle,
            (written && old(self)@ == Some(listen_addr@)) ==> updates_with(a, rules@),
            (written && old(self)@ is Some && old(self)@ != Some(listen_addr@)) ==> restarts_on(
                a,
                listen_addr@,
                rules@,
            ),
    {
        if !written {
            return SaveAction::Idle;
        }
        match &self.running {
            None => SaveAction::Idle,
            Some(addr) => {
                if str_eq(addr.as_str(), listen_addr) {
                    SaveAction::UpdateRules { rules }
                } else {
                    self.running = Some(listen_addr.to_owned());
                    SaveAction::Restart { listen_addr: listen_addr.to_owned(), rules }
                }
            },
        }
    }

    /// Whether closing the window turns the system proxy off: only when a
    /// daemon runs and the system proxy box is checked.
    pub fn close_disables_proxy(&self, auto_proxy: bool) -> (b: bool)
        ensures
            b == (self@ is Some && auto_proxy),
    {
        self.running.is_some() && auto_proxy
    }
}

/// The text key of the status label.
pub fn status_key(running: bool) -> (k: &'static str)
    ensures
        k@ == (if running {
            "status_running"@
        } else {
            "status_stopped"@
        }),
{
    if running {
        "status_running"
    } else {
        "status_stopped"
    }
}

/// The text key of the start/stop button.
pub fn start_button_key(running: bool) -> (k: &'static str)
    ensures
        k@ == (if running {
            "stop"@
        } else {
            "start"@
        }),
{
    if running {
        "stop"
    } else {
        "start"
    }
}

/// The theme that the segment button at `idx` selects.
pub fn theme_name(idx: usize) -> (t: &'static str)
    requires
        idx < 3,
    ensures
        t@ == (if idx == 0 {
            "system"@
        } else if idx == 1 {
            "dark"@
        } else {
            "light"@
        }),
{
    if idx == 0 {
        "system"
    } else if idx == 1 {
        "dark"
    } else {
        "light"
    }
}

/// Whether `theme` is shown dark: `dark` is, `light` is not, anything else
/// follows the system (`system_dark`).
pub fn theme_is_dark(theme: &str, system_dark: bool) -> (d: bool)
    ensures
        d == (if theme@ == "dark"@ {
            true
        } else if theme@ == "light"@ {
            false
        } else {
            system_dark
        }),
{
    if str_eq(theme, "dark") {
        true
    } else if str_eq(theme, "light") {
        false
    } else {
        system_dark
    }
}

/// The language the switch goes to from `current`: `zh` goes to `en`, anything else to `zh`.
pub fn next_language(current: &str) -> (l: &'static str)
    ensures
        l@ == (if current@ == "zh"@ {
            "en"@
        } else {
            "zh"@
        }),
{
    if str_eq(current, "zh") {
        "en"
    } else {
        "zh"
    }
}

/// The text of an optional key.
pub open spec fn key_text(k: Option<&str>) -> Option<Seq<char>> {
    match k {
        Some(t) => Some(t@),
        None => None,
    }
}

/// The text key of the theme button at `idx`; the buttons past the three
/// themes get none.
pub fn theme_button_key(idx: usize) -> (k: Option<&'static str>)
    ensures
        key_text(k) == (if idx == 0 {
            Some("theme_system"@)
        } else if idx == 1 {
            Some("theme_dark"@)
        } else if idx == 2 {
            Some("theme_light"@)
        } else {
            None
        }),
{
    if idx == 0 {
        Some("theme_system")
    } else if idx == 1 {
        Some("theme_dark")
    } else if idx == 2 {
        Some("theme_light")
    } else {
        None
    }
}

/// The text key of the rule column header at `idx`: match address, match
/// prefix, none for the arrow column, forward address, forward prefix; the
/// headers past these five get none.
pub fn column_header_key(idx: usize) -> (k: Option<&'static str>)
    ensures
        key_text(k) == (if idx == 0 {
            Some("col_match_addr"@)
        } else if idx == 1 {
            Some("col_match_prefix"@)
        } else if idx == 3 {
            Some("col_fwd_addr"@)
        } else if idx == 4 {
            Some("col_fwd_prefix"@)
        } else {
            None
        }),
{
    if idx == 0 {
        Some("col_match_addr")
    } else if idx == 1 {
        Some("col_match_prefix")
    } else if idx == 3 {
        Some("col_fwd_addr")
    } else if idx == 4 {
        Some("col_fwd_prefix")
    } else {
        None
    }
}

/// A statistics label: its name, two spaces, its value.
pub fn stat_label(name: &str, value: &str) -> (l: String)
    ensures
        l@ == name@ + "  "@ + value@,
{
    let mut l = String::new();
    l.append(name);
    l.append("  ");
    l.append(value);
    assert(l@ =~= name@ + "  "@ + value@);
    l
}

/// The widget theme the window is repainted with.
#[derive(Debug, Clone, Copy, PartialEq, Eq, Structural)]
pub enum WidgetTheme {
    Dark,
    Greybird,
}

/// The widget theme for a dark or a light window.
pub fn widget_theme(dark: bool) -> (t: WidgetTheme)
    ensures
        t == (if dark {
            WidgetTheme::Dark
        } else {
            WidgetTheme::Greybird
        }),
{
    if dark {
        WidgetTheme::Dark
    } else {
        WidgetTheme::Greybird
    }
}

/// The palette colour of the status light.
#[derive(Debug, Clone, Copy, PartialEq, Eq, Structural)]
pub enum StatusColour {
    /// The palette's "ok" colour.
    Good,
    /// The palette's secondary text colour.
    Subtext,
}

/// The status light shows "ok" while a daemon runs, else the secondary text colour.
pub fn status_colour(running: bool) -> (c: StatusColour)
    ensures
        c == (if running {
            StatusColour::Good
        } else {
            StatusColour::Subtext
        }),
{
    if running {
        StatusColour::Good
    } else {
        StatusColour::Subtext
    }
}

/// The cursor's visibility on the next blink: it flips.
pub fn toggle_blink(visible: bool) -> (v: bool)
    ensures
        v == !visible,
{
    !visible
}

/// The saved settings that the window reads and writes.
pub struct Settings {
    pub listen_addr: String,
    pub rules: Vec<Rule>,
    pub auto_proxy: bool,
    pub theme: String,
    pub language: String,
}

/// The system proxy box was clicked: its state is what gets stored (and the
/// settings are then written); nothing else changes.
pub fn set_auto_proxy(settings: &mut Settings, checked: bool)
    ensures
        final(settings).auto_proxy == checked,
        final(settings).listen_addr == old(settings).listen_addr,
        final(settings).rules == old(settings).rules,
        final(settings).theme == old(settings).theme,
        final(settings).language == old(settings).language,
{
    settings.auto_proxy = checked;
}

/// The save button: the entered address, the rules and the system proxy box
/// are stored; theme and language are kept.
pub fn store_form(settings: &mut Settings, listen_addr: &str, rules: Vec<Rule>, auto_proxy: bool)
    ensures
        final(settings).listen_addr@ == listen_addr@,
        final(settings).rules == rules,
        final(settings).auto_proxy == auto_proxy,
        final(settings).theme == old(settings).theme,
        final(settings).language == old(settings).language,
{
    settings.listen_addr = listen_addr.to_owned();
    settings.rules = rules;
    settings.auto_proxy = auto_proxy;
}

/// A theme was chosen: it is stored, and the settings need writing, only
/// when it differs from the stored one.
pub fn choose_theme(settings: &mut Settings, theme: &str) -> (write: bool)
    ensures
        write == (old(settings).theme@ != theme@),
        final(settings).theme@ == theme@,
        !write ==> final(settings).theme == old(settings).theme,
        final(settings).listen_addr == old(settings).listen_addr,
        final(settings).rules == old(settings).rules,
        final(settings).auto_proxy == old(settings).auto_proxy,
        final(settings).language == old(settings).language,
{
    if str_eq(settings.theme.as_str(), theme) {
        false
    } else {
        settings.theme = theme.to_owned();
        true
    }
}

/// A language was switched to: it is stored, and the settings need writing,
/// only when it differs from the stored one.
pub fn choose_language(settings: &mut Settings, language: &str) -> (write: bool)
    ensures
        write == (old(settings).language@ != language@),
        final(settings).language@ == language@,
        !write ==> final(settings).language == old(settings).language,
        final(settings).listen_addr == old(settings).listen_addr,
        final(settings).rules == old(settings).rules,
        final(settings).auto_proxy == old(settings).auto_proxy,
        final(settings).theme == old(settings).theme,
{
    if str_eq(settings.language.as_str(), language) {
        false
    } else {
        settings.language = language.to_owned();
        true
    }
}

/// Whether a blinking cursor is drawn in the background colour (hidden) now.
pub fn blink_hides_cursor(focused: bool, visible: bool) -> (h: bool)
    ensures
        h == (focused && !visible),
{
    focused && !visible
}

/// The unit a byte count is shown in.
#[derive(Debug, Clone, Copy, PartialEq, Eq, Structural)]
pub enum ByteUnit {
    Bytes,
    Kb,
    Mb,
    Gb,
}

/// The unit for `n` bytes: the largest of GB, MB and KB that `n` reaches, else bytes.
pub open spec fn unit_for(n: u64) -> ByteUnit {
    if n >= 1024 * 1024 * 1024 {
        ByteUnit::Gb
    } else if n >= 1024 * 1024 {
        ByteUnit::Mb
    } else if n >= 1024 {
        ByteUnit::Kb
    } else {
        ByteUnit::Bytes
    }
}

pub open spec fn unit_size(u: ByteUnit) -> u64 {
    match u {
        ByteUnit::Bytes => 1,
        ByteUnit::Kb => 1024,
        ByteUnit::Mb => 1048576,
        ByteUnit::Gb => 1073741824,
    }
}

impl ByteUnit {
    /// The number of bytes in one of this unit.
    pub fn size(&self) -> (s: u64)
        ensures
            s == unit_size(*self),
    {
        match self {
            ByteUnit::Bytes => 1,
            ByteUnit::Kb => 1024,
            ByteUnit::Mb => 1024 * 1024,
            ByteUnit::Gb => 1024 * 1024 * 1024,
        }
    }

    /// The unit's label.
    pub fn label(&self) -> (l: &'static str)
        ensures
            l@ == match *self {
                ByteUnit::Bytes => "B"@,
                ByteUnit::Kb => "KB"@,
                ByteUnit::Mb => "MB"@,
                ByteUnit::Gb => "GB"@,
            },
    {
        match self {
            ByteUnit::Bytes => "B",
            ByteUnit::Kb => "KB",
            ByteUnit::Mb => "MB",
            ByteUnit::Gb => "GB",
        }
    }
}

/// The unit that `n` bytes are shown in.
pub fn byte_unit(n: u64) -> (u: ByteUnit)
    ensures
        u == unit_for(n),
{
    if n >= 1024 * 1024 * 1024 {
        ByteUnit::Gb
    } else if n >= 1024 * 1024 {
        ByteUnit::Mb
    } else if n >= 1024 {
        ByteUnit::Kb
    } else {
        ByteUnit::Bytes
    }
}

/// A byte count is shown with at least one whole unit and under 1024 of a
/// smaller unit: the chosen unit never exceeds the count, and the count is
/// below 1024 of it unless it is GB.
pub proof fn law_byte_unit_in_range(n: u64)
    ensures
        unit_size(unit_for(n)) <= n || n < 1024,
        unit_for(n) != ByteUnit::Gb ==> n < 1024 * unit_size(unit_for(n)),
{
}

/// A byte is the unit of one byte, and each larger unit holds 1024 of the one
/// below it: KB is 2^10 bytes, MB 2^20 and GB 2^30.
pub proof fn law_units_are_powers_of_1024()
    ensures
        unit_size(ByteUnit::Bytes) == 1,
        unit_size(ByteUnit::Kb) == 1024 * unit_size(ByteUnit::Bytes),
        unit_size(ByteUnit::Mb) == 1024 * unit_size(ByteUnit::Kb),
        unit_size(ByteUnit::Gb) == 1024 * unit_size(ByteUnit::Mb),
        unit_size(ByteUnit::Gb) == 1073741824,
{
}

/// A count is shown in the largest unit that it reaches: the chosen unit's
/// size is at most the count (for a count of at least one byte), and every
/// unit whose size the count reaches is no larger than the chosen one; so
/// from 2^30 bytes on the unit is GB, of 2^30 bytes.
pub proof fn law_count_shown_in_largest_unit_reached(n: u64)
    ensures
        n >= 1 ==> unit_size(unit_for(n)) <= n,
        unit_size(ByteUnit::Bytes) <= n ==> unit_size(ByteUnit::Bytes) <= unit_size(unit_for(n)),
        unit_size(ByteUnit::Kb) <= n ==> unit_size(ByteUnit::Kb) <= unit_size(unit_for(n)),
        unit_size(ByteUnit::Mb) <= n ==> unit_size(ByteUnit::Mb) <= unit_size(unit_for(n)),
        unit_size(ByteUnit::Gb) <= n ==> unit_size(ByteUnit::Gb) <= unit_size(unit_for(n)),
        n >= 1073741824 ==> unit_for(n) == ByteUnit::Gb && unit_size(unit_for(n)) == 1073741824,
        n < 1024 ==> unit_for(n) == ByteUnit::Bytes,
{
}

/// Pressing start/stop twice from a stopped slot leaves it stopped, and from a
/// running one leaves a daemon running on the entered address.
pub proof fn law_start_stop_twice(slot: Option<Seq<char>>, first: Seq<char>, second: Seq<char>)
    ensures
        after_start_stop(after_start_stop(slot, first), second) == (if slot is Some {
            Some(second)
        } else {
            None
        }),
{
}

/// Saving never starts or stops the daemon; a running daemon ends up on the
/// saved address when the settings were written and is untouched when they
/// were not; saving the same address twice is the same as once.
pub proof fn law_save_keeps_running_state(slot: Option<Seq<char>>, listen: Seq<char>, written: bool)
    ensures
        (after_save(slot, listen, written) is Some) == (slot is Some),
        (written && slot is Some) ==> after_save(slot, listen, written) == Some(listen),
        !written ==> after_save(slot, listen, written) == slot,
        after_save(after_save(slot, listen, written), listen, written) == after_save(
            slot,
            listen,
            written,
        ),
{
}

/// Switching the language twice from `zh` or `en` comes back to it.
pub proof fn law_language_switch_twice(current: Seq<char>, next: Seq<char>, back: Seq<char>)
    requires
        current == "zh"@ || current == "en"@,
        next == (if current == "zh"@ {
            "en"@
        } else {
            "zh"@
        }),
        back == (if next == "zh"@ {
            "en"@
        } else {
            "zh"@
        }),
    ensures
        back == current,
{
    reveal_strlit("zh");
    reveal_strlit("en");
    assert("zh"@ != "en"@) by {
        assert("zh"@[0] != "en"@[0]);
    }
}

} // verus!
