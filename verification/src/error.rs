//! The errors of the back end.
use vstd::prelude::*;
use vstd::string::StringExecFns;
use vstd::string::StrSliceExecFns;

verus! {

/// Everything that can go wrong in the back end.
#[derive(Debug, Clone)]
pub enum Error {
    InvalidProgramId(String),
    RpcError(String),
    RpcUrlError(String),
    ConfigError(String),
    ProgramIdError(String),
    PayerKeypairError(String),
    PubKeyError,
    LogError(String),
    InvalidKey,
    ServerPortError(String),
    IoError(String),
    TreasuryError(String),
    ParseEmitError(String),
    LimitError,
    InvalidPageError,
    InvalidParam(String),
    InternalError(String),
    UnsupportedCharacter(String),
    UserDoesNotExistError,
    PermissionDoesNotExistError,
    UserLogout,
    KeyTooLong,
    ValueTooLong,
}

/// The message of a read that ran past the end of the log.
pub fn eof_error() -> (e: Error)
    ensures
        e is IoError,
{
    Error::IoError(String::from_str("failed to fill whole buffer"))
}

/// The message of a log entry whose value length is negative but not the
/// deletion mark.
pub fn corrupt_entry_error() -> (e: Error)
    ensures
        e is IoError,
{
    Error::IoError(String::from_str("invalid value length in log entry"))
}

/// The message of a log entry too large to be written again.
pub fn entry_too_large_error() -> (e: Error)
    ensures
        e is IoError,
{
    Error::IoError(String::from_str("log entry too large"))
}

/// The text of an error, as the back end shows it to its users.
pub open spec fn error_text(e: Error) -> Seq<char> {
    match e {
        Error::InvalidProgramId(msg) => "无效的程序ID: "@ + msg@,
        Error::RpcError(msg) => "RPC 错误: "@ + msg@,
        Error::ConfigError(msg) => "配置错误: "@ + msg@,
        Error::RpcUrlError(msg) => "RPC 路径错误: "@ + msg@,
        Error::ProgramIdError(msg) => "Program Id 错误: "@ + msg@,
        Error::PayerKeypairError(msg) => "Payer Keypair 错误: "@ + msg@,
        Error::PubKeyError => "Pubkey 错误"@,
        Error::LogError(msg) => "Log 错误: "@ + msg@,
        Error::InvalidKey => "无效的 Key"@,
        Error::ServerPortError(msg) => "服务端口 错误: "@ + msg@,
        Error::IoError(msg) => "IO 错误: "@ + msg@,
        Error::TreasuryError(msg) => "Treasury 错误: "@ + msg@,
        Error::ParseEmitError(msg) => "解析 Emit 错误: "@ + msg@,
        Error::LimitError => "Limit 输入 错误"@,
        Error::InvalidPageError => "输入 页码 错误"@,
        Error::InvalidParam(msg) => "无效参数: "@ + msg@,
        Error::InternalError(msg) => "从bitcask取数据报错: "@ + msg@,
        Error::UnsupportedCharacter(msg) => "无效的字符: "@ + msg@,
        Error::UserDoesNotExistError => "用户不存在"@,
        Error::PermissionDoesNotExistError => "权限不存在"@,
        Error::UserLogout => "用户未登录"@,
        Error::KeyTooLong => "key 太大了"@,
        Error::ValueTooLong => "value 太大了"@,
    }
}

impl Error {
    /// The text of the error.
    pub fn message(&self) -> (r: String)
        ensures
            r@ == error_text(*self),
    {
        match self {
            Error::InvalidProgramId(msg) => {
                let mut t = String::from_str("无效的程序ID: ");
                t.append(msg.as_str());
                t
            },
            Error::RpcError(msg) => {
                let mut t = String::from_str("RPC 错误: ");
                t.append(msg.as_str());
                t
            },
            Error::ConfigError(msg) => {
                let mut t = String::from_str("配置错误: ");
                t.append(msg.as_str());
                t
            },
            Error::RpcUrlError(msg) => {
                let mut t = String::from_str("RPC 路径错误: ");
                t.append(msg.as_str());
                t
            },
            Error::ProgramIdError(msg) => {
                let mut t = String::from_str("Program Id 错误: ");
                t.append(msg.as_str());
                t
            },
            Error::PayerKeypairError(msg) => {
                let mut t = String::from_str("Payer Keypair 错误: ");
                t.append(msg.as_str());
                t
            },
            Error::PubKeyError => String::from_str("Pubkey 错误"),
            Error::LogError(msg) => {
                let mut t = String::from_str("Log 错误: ");
                t.append(msg.as_str());
                t
            },
            Error::InvalidKey => String::from_str("无效的 Key"),
            Error::ServerPortError(msg) => {
                let mut t = String::from_str("服务端口 错误: ");
                t.append(msg.as_str());
                t
            },
            Error::IoError(msg) => {
                let mut t = String::from_str("IO 错误: ");
                t.append(msg.as_str());
                t
            },
            Error::TreasuryError(msg) => {
                let mut t = String::from_str("Treasury 错误: ");
                t.append(msg.as_str());
                t
            },
            Error::ParseEmitError(msg) => {
                let mut t = String::from_str("解析 Emit 错误: ");
                t.append(msg.as_str());
                t
            },
            Error::LimitError => String::from_str("Limit 输入 错误"),
            Error::InvalidPageError => String::from_str("输入 页码 错误"),
            Error::InvalidParam(msg) => {
                let mut t = String::from_str("无效参数: ");
                t.append(msg.as_str());
                t
            },
            Error::InternalError(msg) => {
                let mut t = String::from_str("从bitcask取数据报错: ");
                t.append(msg.as_str());
                t
            },
            Error::UnsupportedCharacter(msg) => {
                let mut t = String::from_str("无效的字符: ");
                t.append(msg.as_str());
                t
            },
            Error::UserDoesNotExistError => String::from_str("用户不存在"),
            Error::PermissionDoesNotExistError => String::from_str("权限不存在"),
            Error::UserLogout => String::from_str("用户未登录"),
            Error::KeyTooLong => String::from_str("key 太大了"),
            Error::ValueTooLong => String::from_str("value 太大了"),
        }
    }
}

} // verus!
