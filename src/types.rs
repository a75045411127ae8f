//! Plain data exchanged with clients and the terminal multiplexer.
use vstd::prelude::*;

verus! {

/// A terminal session as listed by the multiplexer.
pub struct TmuxSession {
    pub name: String,
    pub attached: bool,
    /// Creation time, in seconds since the Unix epoch.
    pub created: i64,
    pub windows: u32,
    pub dimensions: String,
}

/// A window of a session.
pub struct TmuxWindow {
    pub index: u32,
    pub name: String,
    pub active: bool,
    pub panes: u32,
}

pub struct CreateSessionRequest {
    pub name: Option<String>,
}

pub struct RenameSessionRequest {
    pub new_name: String,
}

pub struct CreateWindowRequest {
    pub window_name: Option<String>,
}

pub struct RenameWindowRequest {
    pub new_name: String,
}

pub struct MemoryInfo {
    pub total: u64,
    pub used: u64,
    pub free: u64,
    pub percent: String,
}

#[derive(Debug, Clone, Copy, PartialEq, Eq, Structural)]
pub enum AudioAction {
    Start,
    Stop,
}

/// A message from a client on the text path.
#[allow(inconsistent_fields)]
pub enum WebSocketMessage {
    ListSessions,
    AttachSession { session_name: String, cols: u16, rows: u16 },
    Input { data: String },
    Resize { cols: u16, rows: u16 },
    ListWindows { session_name: String },
    SelectWindow { session_name: String, window_index: u32 },
    Ping,
    AudioControl { action: AudioAction },
    CreateSession { name: Option<String> },
    KillSession { session_name: String },
    RenameSession { session_name: String, new_name: String },
    CreateWindow { session_name: String, window_name: Option<String> },
    KillWindow { session_name: String, window_index: String },
    RenameWindow { session_name: String, window_index: String, new_name: String },
    GetStats,
}

pub struct ApiResponse<T> {
    pub data: T,
}

pub struct SuccessResponse {
    pub success: bool,
}

pub struct ErrorResponse {
    pub success: bool,
    pub error: String,
}

pub struct WindowsResponse {
    pub windows: Vec<TmuxWindow>,
}

pub struct CreateSessionResponse {
    pub success: bool,
    pub session_name: String,
}

/// Kinds of configuration files.
#[derive(Debug, Clone, Copy, PartialEq, Eq, Structural)]
pub enum DotFileType {
    Shell,
    Git,
    Vim,
    Tmux,
    SSH,
    Other,
}

pub struct DotFileTemplate {
    pub name: String,
    pub file_type: DotFileType,
    pub description: String,
    pub content: String,
}

/// Errors reported to HTTP clients.
pub enum AppError {
    Internal(String),
    BadRequest(String),
    NotFound(String),
    SessionError(String),
    WebSocketError(String),
    AudioError(String),
}

pub open spec fn status_of(e: AppError) -> u16 {
    match e {
        AppError::BadRequest(_) => 400,
        AppError::NotFound(_) => 404,
        AppError::SessionError(_) => 409,
        AppError::WebSocketError(_) => 400,
        AppError::AudioError(_) => 500,
        AppError::Internal(_) => 500,
    }
}

impl AppError {
    /// The HTTP status code that reports this error.
    pub fn status_code(&self) -> (r: u16)
        ensures
            r == status_of(*self),
    {
        match self {
            AppError::BadRequest(_) => 400,
            AppError::NotFound(_) => 404,
            AppError::SessionError(_) => 409,
            AppError::WebSocketError(_) => 400,
            AppError::AudioError(_) => 500,
            AppError::Internal(_) => 500,
        }
    }

    /// The message shown to the client: the error's own message, except that
    /// internal errors are not disclosed.
    pub fn client_message(&self) -> (r: String)
        ensures
            match self {
                AppError::Internal(_) => r@ == "Internal server error"@,
                AppError::BadRequest(m) => r@ == m@,
                AppError::NotFound(m) => r@ == m@,
                AppError::SessionError(m) => r@ == m@,
                AppError::WebSocketError(m) => r@ == m@,
                AppError::AudioError(m) => r@ == m@,
            },
    {
        match self {
            AppError::Internal(_) => "Internal server error".to_owned(),
            AppError::BadRequest(m) => m.clone(),
            AppError::NotFound(m) => m.clone(),
            AppError::SessionError(m) => m.clone(),
            AppError::WebSocketError(m) => m.clone(),
            AppError::AudioError(m) => m.clone(),
        }
    }
}

} // verus!
