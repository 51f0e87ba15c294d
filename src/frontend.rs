//! Messages between the kernel and its front end, and the debugger's
//! shared state.
use vstd::prelude::*;
use vstd::string::StringExecFns;

verus! {

/// A request from the kernel to the front end to prompt the user for input.
#[derive(Debug, Clone)]
pub struct InputRequest {
    /// The prompt to display to the user.
    pub prompt: String,
    /// Whether the requested string is a password, to be obscured.
    pub password: bool,
}

impl InputRequest {
    /// The wire name of this message.
    pub fn message_type() -> (r: String)
        ensures
            r@ == "input_request"@,
    {
        String::from_str("input_request")
    }
}

/// Parameters of the Busy event.
#[derive(Debug, PartialEq, Eq, Structural)]
pub struct BusyParams {
    /// Whether the back end is busy.
    pub busy: bool,
}

/// Parameters of the OpenEditor event.
#[derive(Debug)]
pub struct OpenEditorParams {
    /// The path of the file to open.
    pub file: String,
    /// The line number to jump to.
    pub line: i64,
    /// The column number to jump to.
    pub column: i64,
}

/// Parameters of the ShowMessage event.
#[derive(Debug)]
pub struct ShowMessageParams {
    /// The message to show to the user.
    pub message: String,
}

/// Parameters of the PromptState event.
#[derive(Debug)]
pub struct PromptStateParams {
    /// Prompt for primary input.
    pub input_prompt: String,
    /// Prompt for incomplete input.
    pub continuation_prompt: String,
}

/// Parameters of the WorkingDirectory event.
#[derive(Debug)]
pub struct WorkingDirectoryParams {
    /// The new working directory.
    pub directory: String,
}

/// Events sent to the front end.
#[derive(Debug)]
pub enum FrontendEvent {
    Busy(BusyParams),
    ClearConsole,
    OpenEditor(OpenEditorParams),
    ShowMessage(ShowMessageParams),
    PromptState(PromptStateParams),
    WorkingDirectory(WorkingDirectoryParams),
}

impl FrontendEvent {
    /// The wire name of the event's method.
    pub fn method(&self) -> (r: String)
        ensures
            r@ == match *self {
                FrontendEvent::Busy(_) => "busy"@,
                FrontendEvent::ClearConsole => "clear_console"@,
                FrontendEvent::OpenEditor(_) => "open_editor"@,
                FrontendEvent::ShowMessage(_) => "show_message"@,
                FrontendEvent::PromptState(_) => "prompt_state"@,
                FrontendEvent::WorkingDirectory(_) => "working_directory"@,
            },
    {
        match self {
            FrontendEvent::Busy(_) => String::from_str("busy"),
            FrontendEvent::ClearConsole => String::from_str("clear_console"),
            FrontendEvent::OpenEditor(_) => String::from_str("open_editor"),
            FrontendEvent::ShowMessage(_) => String::from_str("show_message"),
            FrontendEvent::PromptState(_) => String::from_str("prompt_state"),
            FrontendEvent::WorkingDirectory(_) => String::from_str("working_directory"),
        }
    }
}

/// Events of the debug adapter back end.
#[derive(Debug, Copy, Clone, PartialEq, Eq, Structural)]
pub enum DapBackendEvent {
    /// A normal (non-browser) prompt ended a debugging session.
    Terminated,
    /// The user typed `n`, `f`, `c` or `cont`.
    Continued,
    /// A browser prompt was emitted during a debugging session.
    Stopped,
}

/// A frame of the interpreter's call stack.
#[derive(Debug, Clone)]
pub struct FrameInfo {
    pub name: String,
    pub file: String,
    pub line: i64,
    pub column: i64,
}

/// State shared with the debug adapter server.
#[derive(Debug)]
pub struct DapState {
    /// Whether the REPL is stopped at a browser prompt.
    pub is_debugging: bool,
    /// Whether the server is connected to a client.
    pub is_connected: bool,
    /// Stack information.
    pub stack: Option<Vec<FrameInfo>>,
}

impl DapState {
    /// Not debugging, not connected, no stack.
    pub fn new() -> (r: Self)
        ensures
            !r.is_debugging,
            !r.is_connected,
            r.stack is None,
    {
        DapState { is_debugging: false, is_connected: false, stack: None }
    }
}

} // verus!
