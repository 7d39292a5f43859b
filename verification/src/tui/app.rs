//! The interactive browser's state machine: every key press and every
//! finished background job is an `Action`, and `App::update` decides the next
//! state.  Rendering and terminal handling stand outside the library.

use vstd::prelude::*;
use crate::export::{report_name, tui_report_name};
use crate::model::Inspection;
use crate::plain::{render, report};
use crate::text::{chars_of, concat, contains_seq, find_chars};

verus! {

/// The focused panel.
#[derive(Clone, Copy, Debug, PartialEq, Eq, Structural)]
pub enum Focus {
    Configurations,
    Libraries,
    Dependencies,
    Release,
}

impl Default for Focus {
    fn default() -> (r: Focus)
        ensures
            r == Focus::Configurations,
    {
        Focus::Configurations
    }
}

/// What keys currently do.
#[derive(Clone, Copy, Debug, PartialEq, Eq, Structural)]
pub enum Mode {
    Normal,
    Search,
    Help,
}

impl Default for Mode {
    fn default() -> (r: Mode)
        ensures
            r == Mode::Normal,
    {
        Mode::Normal
    }
}

/// A key press or the result of a background job.
#[derive(Debug)]
pub enum Action {
    NextFocus,
    PreviousFocus,
    MoveDown,
    MoveUp,
    StartSearch,
    SearchChar(char),
    Backspace,
    Escape,
    ToggleHelp,
    Quit,
    Refresh,
    ConfigurationsLoaded { request_id: u64, values: Vec<String> },
    InspectionLoaded { request_id: u64, value: Inspection },
    Failed { request_id: u64, message: String },
    /// Export the active inspection as a plain report.
    Export,
    /// The report was written to `path`.
    Exported { path: String },
    /// Writing the report failed.
    ExportFailed { message: String },
}

/// A key as the browser reads it from the terminal.
#[derive(Clone, Copy, Debug, PartialEq, Eq, Structural)]
pub enum Key {
    Char(char),
    Tab,
    BackTab,
    Up,
    Down,
    Esc,
    Backspace,
    Other,
}

/// The browser's state.
#[derive(Debug)]
pub struct App {
    pub focus: Focus,
    pub mode: Mode,
    pub search: String,
    pub configurations: Vec<String>,
    pub configuration_index: usize,
    pub library_index: usize,
    /// The row the configuration list shows selected.
    pub configuration_selected: Option<usize>,
    /// The row the library list shows selected.
    pub library_selected: Option<usize>,
    /// The job whose results are awaited; results of other jobs are stale.
    pub request_id: u64,
    pub loading: bool,
    pub inspection: Option<Inspection>,
    pub error: Option<String>,
    pub status: Option<String>,
    pub should_quit: bool,
}

/// The state as a value.
pub struct AppView {
    pub focus: Focus,
    pub mode: Mode,
    pub search: Seq<char>,
    pub configurations: Seq<Seq<char>>,
    pub configuration_index: usize,
    pub library_index: usize,
    pub configuration_selected: Option<usize>,
    pub library_selected: Option<usize>,
    pub request_id: u64,
    pub loading: bool,
    pub inspection: Option<Inspection>,
    pub error: Option<Seq<char>>,
    pub status: Option<Seq<char>>,
    pub should_quit: bool,
}

pub open spec fn opt_text(o: Option<String>) -> Option<Seq<char>> {
    match o {
        Some(s) => Some(s@),
        None => None,
    }
}

impl View for App {
    type V = AppView;

    open spec fn view(&self) -> AppView {
        AppView {
            focus: self.focus,
            mode: self.mode,
            search: self.search@,
            configurations: self.configurations.deep_view(),
            configuration_index: self.configuration_index,
            library_index: self.library_index,
            configuration_selected: self.configuration_selected,
            library_selected: self.library_selected,
            request_id: self.request_id,
            loading: self.loading,
            inspection: self.inspection,
            error: opt_text(self.error),
            status: opt_text(self.status),
            should_quit: self.should_quit,
        }
    }
}

impl Default for App {
    fn default() -> (r: App)
        ensures
            r@ == (AppView {
                focus: Focus::Configurations,
                mode: Mode::Normal,
                search: Seq::empty(),
                configurations: Seq::empty(),
                configuration_index: 0,
                library_index: 0,
                configuration_selected: None,
                library_selected: None,
                request_id: 0,
                loading: false,
                inspection: None,
                error: None,
                status: None,
                should_quit: false,
            }),
    {
        let r = App {
            focus: Focus::Configurations,
            mode: Mode::Normal,
            search: String::new(),
            configurations: Vec::new(),
            configuration_index: 0,
            library_index: 0,
            configuration_selected: None,
            library_selected: None,
            request_id: 0,
            loading: false,
            inspection: None,
            error: None,
            status: None,
            should_quit: false,
        };
        assert(r.configurations.deep_view() =~= Seq::<Seq<char>>::empty());
        r
    }
}

/// The panel after `value` in tab order.
pub open spec fn spec_next_focus(value: Focus) -> Focus {
    match value {
        Focus::Configurations => Focus::Libraries,
        Focus::Libraries => Focus::Dependencies,
        Focus::Dependencies => Focus::Release,
        Focus::Release => Focus::Configurations,
    }
}

/// The panel before `value` in tab order.
pub open spec fn spec_previous_focus(value: Focus) -> Focus {
    match value {
        Focus::Configurations => Focus::Release,
        Focus::Libraries => Focus::Configurations,
        Focus::Dependencies => Focus::Libraries,
        Focus::Release => Focus::Dependencies,
    }
}

/// The panel after `value` in tab order.
pub fn next_focus(value: Focus) -> (r: Focus)
    ensures
        r == spec_next_focus(value),
{
    match value {
        Focus::Configurations => Focus::Libraries,
        Focus::Libraries => Focus::Dependencies,
        Focus::Dependencies => Focus::Release,
        Focus::Release => Focus::Configurations,
    }
}

/// The panel before `value` in tab order.
pub fn previous_focus(value: Focus) -> (r: Focus)
    ensures
        r == spec_previous_focus(value),
{
    match value {
        Focus::Configurations => Focus::Release,
        Focus::Libraries => Focus::Configurations,
        Focus::Dependencies => Focus::Libraries,
        Focus::Release => Focus::Dependencies,
    }
}

/// `index` moved by `delta` rows in a list of `len`, wrapping around.
pub open spec fn moved(index: usize, delta: int, len: nat) -> usize {
    if len == 0 {
        index
    } else {
        ((index + delta) % (len as int)) as usize
    }
}

/// The number of rows in the focused list (libraries: those of the current
/// inspection).
pub open spec fn rows(v: AppView) -> nat {
    match v.focus {
        Focus::Configurations => v.configurations.len(),
        Focus::Libraries => match v.inspection {
            Some(i) => i.libraries@.len(),
            None => 0,
        },
        _ => 0,
    }
}

/// The state after moving the selection of the focused list by `delta`.
pub open spec fn move_selection_spec(v: AppView, delta: int) -> AppView {
    match v.focus {
        Focus::Configurations => {
            let i = moved(v.configuration_index, delta, rows(v));
            AppView { configuration_index: i, configuration_selected: Some(i), ..v }
        },
        Focus::Libraries => {
            let i = moved(v.library_index, delta, rows(v));
            AppView { library_index: i, library_selected: Some(i), ..v }
        },
        _ => v,
    }
}

/// The state after `action`.
pub open spec fn next_state(v: AppView, action: Action) -> AppView {
    match action {
        Action::NextFocus => AppView { focus: spec_next_focus(v.focus), ..v },
        Action::PreviousFocus => AppView { focus: spec_previous_focus(v.focus), ..v },
        Action::MoveDown => move_selection_spec(v, 1),
        Action::MoveUp => move_selection_spec(v, -1),
        Action::StartSearch => AppView { mode: Mode::Search, search: Seq::empty(), ..v },
        Action::SearchChar(c) => if v.mode == Mode::Search {
            AppView { search: v.search.push(c), ..v }
        } else {
            v
        },
        Action::Backspace => if v.mode == Mode::Search && v.search.len() > 0 {
            AppView { search: v.search.drop_last(), ..v }
        } else {
            v
        },
        Action::Escape => if v.mode != Mode::Normal {
            AppView { mode: Mode::Normal, ..v }
        } else if v.loading {
            AppView { loading: false, request_id: (v.request_id + 1) as u64, ..v }
        } else {
            AppView { error: None, ..v }
        },
        Action::ToggleHelp => AppView {
            mode: if v.mode == Mode::Help {
                Mode::Normal
            } else {
                Mode::Help
            },
            ..v
        },
        Action::Quit => AppView { should_quit: true, ..v },
        Action::Refresh => AppView {
            request_id: (v.request_id + 1) as u64,
            loading: true,
            error: None,
            ..v
        },
        Action::ConfigurationsLoaded { request_id, values } => if request_id == v.request_id {
            AppView {
                configurations: values.deep_view(),
                configuration_index: 0,
                configuration_selected: Some(0),
                loading: false,
                ..v
            }
        } else {
            v
        },
        Action::InspectionLoaded { request_id, value } => if request_id == v.request_id {
            AppView {
                inspection: Some(value),
                library_index: 0,
                library_selected: Some(0),
                loading: false,
                ..v
            }
        } else {
            v
        },
        Action::Failed { request_id, message } => if request_id == v.request_id {
            AppView { error: Some(message@), loading: false, ..v }
        } else {
            v
        },
        Action::Export => if v.inspection is None {
            AppView { status: Some(nothing_to_export()), ..v }
        } else {
            v
        },
        Action::Exported { path } => AppView { status: Some(written_to(path@)), ..v },
        Action::ExportFailed { message } => AppView { error: Some(message@), ..v },
    }
}

/// The status shown when there is no inspection to export.
pub open spec fn nothing_to_export() -> Seq<char> {
    "no inspection to export"@
}

/// The status shown once the report is written to `path`.
pub open spec fn written_to(path: Seq<char>) -> Seq<char> {
    "report written to "@ + path
}

/// The action a key press triggers in `mode`, if any; `control` tells
/// whether Control was held.  `q` quits in every mode; in search mode, the
/// other characters without Control are typed into the query.
pub open spec fn spec_key_action(key: Key, control: bool, mode: Mode) -> Option<Action> {
    match key {
        Key::Char(c) => if c == 'q' {
            Some(Action::Quit)
        } else if c == 'j' {
            Some(Action::MoveDown)
        } else if c == 'k' {
            Some(Action::MoveUp)
        } else if c == '/' {
            Some(Action::StartSearch)
        } else if c == '?' {
            Some(Action::ToggleHelp)
        } else if c == 'r' {
            Some(Action::Refresh)
        } else if mode == Mode::Search && !control {
            Some(Action::SearchChar(c))
        } else if c == 'e' {
            Some(Action::Export)
        } else {
            None
        },
        Key::Tab => Some(Action::NextFocus),
        Key::BackTab => Some(Action::PreviousFocus),
        Key::Down => Some(Action::MoveDown),
        Key::Up => Some(Action::MoveUp),
        Key::Esc => Some(Action::Escape),
        Key::Backspace => Some(Action::Backspace),
        Key::Other => None,
    }
}

/// The action a key press triggers; see `spec_key_action`.
pub fn key_action(key: Key, control: bool, mode: Mode) -> (r: Option<Action>)
    ensures
        r == spec_key_action(key, control, mode),
{
    match key {
        Key::Char(c) => if c == 'q' {
            Some(Action::Quit)
        } else if c == 'j' {
            Some(Action::MoveDown)
        } else if c == 'k' {
            Some(Action::MoveUp)
        } else if c == '/' {
            Some(Action::StartSearch)
        } else if c == '?' {
            Some(Action::ToggleHelp)
        } else if c == 'r' {
            Some(Action::Refresh)
        } else if mode == Mode::Search && !control {
            Some(Action::SearchChar(c))
        } else if c == 'e' {
            Some(Action::Export)
        } else {
            None
        },
        Key::Tab => Some(Action::NextFocus),
        Key::BackTab => Some(Action::PreviousFocus),
        Key::Down => Some(Action::MoveDown),
        Key::Up => Some(Action::MoveUp),
        Key::Esc => Some(Action::Escape),
        Key::Backspace => Some(Action::Backspace),
        Key::Other => None,
    }
}

/// The actions that start a new job id.
pub open spec fn bumps_request(v: AppView, action: Action) -> bool {
    action is Refresh || (action is Escape && v.mode == Mode::Normal && v.loading)
}

/// Removes the last character of a string, if any (`String::pop`).
#[verifier::external_body]
fn pop_char(s: &mut String) -> (r: Option<char>)
    ensures
        old(s)@.len() == 0 ==> r is None && final(s)@ == old(s)@,
        old(s)@.len() > 0 ==> r == Some(old(s)@.last()) && final(s)@ == old(s)@.drop_last(),
{
    s.pop()
}

/// `index` moved one row down (`forward`) or up in a list of `len`, wrapping.
fn step_index(index: usize, forward: bool, len: usize) -> (r: usize)
    ensures
        r == moved(index, if forward { 1 } else { -1 }, len as nat),
{
    if len == 0 {
        return index;
    }
    let at = index % len;
    if forward {
        let r = if at + 1 == len { 0 } else { at + 1 };
        assert(r as int == (index + 1) % (len as int)) by (nonlinear_arith)
            requires
                len > 0,
                at == index % len,
                r == (if at + 1 == len { 0 } else { at + 1 }),
        ;
        r
    } else {
        let r = if at == 0 { len - 1 } else { at - 1 };
        assert(r as int == (index - 1) % (len as int)) by (nonlinear_arith)
            requires
                len > 0,
                at == index % len,
                r == (if at == 0 { len - 1 } else { (at - 1) as int }),
        ;
        r
    }
}

impl App {
    /// Moves the selection of the focused list one row, wrapping around.
    fn move_selection(&mut self, forward: bool)
        ensures
            final(self)@ == move_selection_spec(old(self)@, if forward { 1 } else { -1 }),
    {
        match self.focus {
            Focus::Configurations => {
                let i = step_index(self.configuration_index, forward, self.configurations.len());
                self.configuration_index = i;
                self.configuration_selected = Some(i);
            },
            Focus::Libraries => {
                let len = match &self.inspection {
                    Some(value) => value.libraries.len(),
                    None => 0,
                };
                let i = step_index(self.library_index, forward, len);
                self.library_index = i;
                self.library_selected = Some(i);
            },
            _ => {},
        }
    }

    /// Applies one action.  Results of a job other than the awaited one are
    /// ignored; `Escape` closes search or help first, then cancels the job,
    /// then dismisses the error.
    pub fn update(&mut self, action: Action)
        requires
            bumps_request(old(self)@, action) ==> old(self).request_id < u64::MAX,
        ensures
            final(self)@ == next_state(old(self)@, action),
    {
        let ghost a = action;
        match action {
            Action::NextFocus => self.focus = next_focus(self.focus),
            Action::PreviousFocus => self.focus = previous_focus(self.focus),
            Action::MoveDown => self.move_selection(true),
            Action::MoveUp => self.move_selection(false),
            Action::StartSearch => {
                self.mode = Mode::Search;
                self.search = String::new();
            },
            Action::SearchChar(value) => {
                if self.mode == Mode::Search {
                    crate::text::push_char(&mut self.search, value);
                }
            },
            Action::Backspace => {
                if self.mode == Mode::Search {
                    pop_char(&mut self.search);
                }
            },
            Action::Escape => {
                if self.mode != Mode::Normal {
                    self.mode = Mode::Normal;
                } else if self.loading {
                    self.loading = false;
                    self.request_id = self.request_id + 1;
                } else {
                    self.error = None;
                }
            },
            Action::ToggleHelp => {
                self.mode = if self.mode == Mode::Help {
                    Mode::Normal
                } else {
                    Mode::Help
                };
            },
            Action::Quit => self.should_quit = true,
            Action::Refresh => {
                self.request_id = self.request_id + 1;
                self.loading = true;
                self.error = None;
            },
            Action::ConfigurationsLoaded { request_id, values } => {
                if request_id == self.request_id {
                    self.configurations = values;
                    self.configuration_index = 0;
                    self.configuration_selected = Some(0);
                    self.loading = false;
                }
            },
            Action::InspectionLoaded { request_id, value } => {
                if request_id == self.request_id {
                    self.inspection = Some(value);
                    self.library_index = 0;
                    self.library_selected = Some(0);
                    self.loading = false;
                }
            },
            Action::Failed { request_id, message } => {
                if request_id == self.request_id {
                    self.error = Some(message);
                    self.loading = false;
                }
            },
            Action::Export => {
                if self.inspection.is_none() {
                    proof {
                        reveal_strlit("no inspection to export");
                    }
                    self.status = Some("no inspection to export".to_owned());
                }
            },
            Action::Exported { path } => {
                proof {
                    reveal_strlit("report written to ");
                }
                self.status = Some(concat("report written to ", path.as_str()));
            },
            Action::ExportFailed { message } => self.error = Some(message),
        }
    }

    /// What an export writes: the file name (the default one, or one stamped
    /// with `timestamp` when a file of the default name exists) and the plain
    /// report of the active inspection; nothing without an inspection.
    pub fn export_plan(&self, default_exists: bool, timestamp: u64) -> (r: Option<(String, String)>)
        ensures
            match self.inspection {
                None => r is None,
                Some(i) => r matches Some((name, text)) && name@ == report_name(default_exists, timestamp)
                    && text@ == report(i),
            },
    {
        match &self.inspection {
            None => None,
            Some(i) => Some((tui_report_name(default_exists, timestamp), render(i))),
        }
    }
}

/// The lower-case mapping of a text (`str::to_lowercase`).
pub uninterp spec fn lowercase(text: Seq<char>) -> Seq<char>;

/// `str::to_lowercase`: the Unicode lower-case mapping of `text`.
#[verifier::external_body]
fn to_lowercase(text: &str) -> (r: String)
    ensures
        r@ == lowercase(text@),
{
    text.to_lowercase()
}

/// Whether a list row stays visible under the search `query`: an empty query
/// keeps every row, otherwise the row must contain the query, both compared
/// in lower case.
pub fn filter(value: &str, query: &str) -> (r: bool)
    ensures
        r == (query@.len() == 0 || contains_seq(lowercase(value@), lowercase(query@))),
{
    if query.is_empty() {
        return true;
    }
    let v = to_lowercase(value);
    let q = to_lowercase(query);
    find_chars(&chars_of(v.as_str()), &chars_of(q.as_str()), 0).is_some()
}

/// Tab and Shift+Tab undo each other, and four Tabs come back round.
pub proof fn lemma_focus_cycle(f: Focus)
    ensures
        spec_previous_focus(spec_next_focus(f)) == f,
        spec_next_focus(spec_previous_focus(f)) == f,
        spec_next_focus(spec_next_focus(spec_next_focus(spec_next_focus(f)))) == f,
{
}

/// Results of any job but the awaited one leave the state unchanged.
pub proof fn lemma_stale_results_ignored(v: AppView, action: Action)
    requires
        match action {
            Action::ConfigurationsLoaded { request_id, .. } => request_id != v.request_id,
            Action::InspectionLoaded { request_id, .. } => request_id != v.request_id,
            Action::Failed { request_id, .. } => request_id != v.request_id,
            _ => false,
        },
    ensures
        next_state(v, action) == v,
{
}

/// Job ids never go back; a refresh or a cancellation moves to a new one,
/// so every earlier job's results become stale.
pub proof fn lemma_request_ids_advance(v: AppView, action: Action)
    requires
        bumps_request(v, action) ==> v.request_id < u64::MAX,
    ensures
        bumps_request(v, action) ==> next_state(v, action).request_id == v.request_id + 1,
        !bumps_request(v, action) ==> next_state(v, action).request_id == v.request_id,
{
}

/// `Escape` closes search or help before it cancels a job or dismisses an
/// error.
pub proof fn lemma_escape_closes_overlay_first(v: AppView)
    requires
        v.mode != Mode::Normal,
    ensures
        next_state(v, Action::Escape) == (AppView { mode: Mode::Normal, ..v }),
{
}


/// How the browser lays out the terminal.
#[derive(Clone, Copy, Debug, PartialEq, Eq, Structural)]
pub enum Screen {
    /// Too small to draw: fewer than 80 columns or 24 rows.
    TooSmall,
    /// Panels stacked, below 100 columns.
    Compact,
    /// Lists beside the details, from 100 columns.
    Wide,
}

/// The layout of a terminal of `width` columns and `height` rows.
pub open spec fn spec_screen(width: u16, height: u16) -> Screen {
    if width < 80 || height < 24 {
        Screen::TooSmall
    } else if width >= 100 {
        Screen::Wide
    } else {
        Screen::Compact
    }
}

/// The layout of a terminal; see `spec_screen`.
pub fn screen(width: u16, height: u16) -> (r: Screen)
    ensures
        r == spec_screen(width, height),
{
    if width < 80 || height < 24 {
        Screen::TooSmall
    } else if width >= 100 {
        Screen::Wide
    } else {
        Screen::Compact
    }
}

} // verus!
