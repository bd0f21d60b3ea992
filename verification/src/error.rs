//! The one error type of the library.
use vstd::prelude::*;
use crate::numbers::{decimal, write_decimal};
use crate::text::{chars_of, push_all, push_str, string_of};

verus! {

/// What can go wrong. Each variant carries the words that are shown behind its own.
#[derive(Debug)]
pub enum AppError {
    Io(String),
    Zip(String),
    Xml(String),
    Encoding(String),
    /// The book is protected by DRM and is refused.
    DrmDetected,
    UnsupportedFormat(String),
    BookNotOpen(String),
    ChapterOutOfRange(u32),
    ResourceNotFound(String),
    Storage(String),
    Other(String),
}

/// An error as a value of the specification: the same variants over character sequences.
#[verifier::ext_equal]
pub enum Failure {
    Io(Seq<char>),
    Zip(Seq<char>),
    Xml(Seq<char>),
    Encoding(Seq<char>),
    DrmDetected,
    UnsupportedFormat(Seq<char>),
    BookNotOpen(Seq<char>),
    ChapterOutOfRange(u32),
    ResourceNotFound(Seq<char>),
    Storage(Seq<char>),
    Other(Seq<char>),
}

pub type AppResult<T> = Result<T, AppError>;

impl View for AppError {
    type V = Failure;

    open spec fn view(&self) -> Failure {
        match *self {
            AppError::Io(s) => Failure::Io(s@),
            AppError::Zip(s) => Failure::Zip(s@),
            AppError::Xml(s) => Failure::Xml(s@),
            AppError::Encoding(s) => Failure::Encoding(s@),
            AppError::DrmDetected => Failure::DrmDetected,
            AppError::UnsupportedFormat(s) => Failure::UnsupportedFormat(s@),
            AppError::BookNotOpen(s) => Failure::BookNotOpen(s@),
            AppError::ChapterOutOfRange(n) => Failure::ChapterOutOfRange(n),
            AppError::ResourceNotFound(s) => Failure::ResourceNotFound(s@),
            AppError::Storage(s) => Failure::Storage(s@),
            AppError::Other(s) => Failure::Other(s@),
        }
    }
}

/// The outcome of a call as a value of the specification.
pub open spec fn outcome<T: DeepView>(r: AppResult<T>) -> Result<T::V, Failure> {
    match r {
        Ok(t) => Ok(t.deep_view()),
        Err(e) => Err(e@),
    }
}

/// The sentence that is shown for an error.
pub open spec fn displayed(f: Failure) -> Seq<char> {
    match f {
        Failure::Io(s) => "文件读取失败: "@ + s,
        Failure::Zip(s) => "ZIP 容器解析失败: "@ + s,
        Failure::Xml(s) => "XML 解析失败: "@ + s,
        Failure::Encoding(s) => "文本编码检测失败: "@ + s,
        Failure::DrmDetected => "该电子书包含 DRM 加密保护，无法在本地阅读器中打开"@,
        Failure::UnsupportedFormat(s) => "不支持的电子书格式: "@ + s,
        Failure::BookNotOpen(s) => "书籍未打开或已被关闭: "@ + s,
        Failure::ChapterOutOfRange(n) => "章节索引超出范围: "@ + decimal(n as int),
        Failure::ResourceNotFound(s) => "书籍资源不存在: "@ + s,
        Failure::Storage(s) => "本地持久化读写失败: "@ + s,
        Failure::Other(s) => s,
    }
}

/// One text behind another.
pub fn joined(a: &str, b: &str) -> (r: String)
    ensures
        r@ == a@ + b@,
{
    let mut out = chars_of(a);
    push_str(&mut out, b);
    string_of(&out)
}

/// A text with a decimal number behind it.
pub fn with_number(a: &str, n: u64) -> (r: String)
    ensures
        r@ == a@ + decimal(n as int),
{
    let mut out = chars_of(a);
    let d = write_decimal(n);
    push_all(&mut out, &d);
    string_of(&out)
}

/// A decimal number between two texts.
pub fn around_number(a: &str, n: u64, b: &str) -> (r: String)
    ensures
        r@ == a@ + decimal(n as int) + b@,
{
    let mut out = chars_of(a);
    let d = write_decimal(n);
    push_all(&mut out, &d);
    push_str(&mut out, b);
    string_of(&out)
}

impl AppError {
    /// An error that is its message and nothing more.
    pub fn other(msg: &str) -> (r: Self)
        ensures
            r@ == Failure::Other(msg@),
    {
        AppError::Other(msg.to_owned())
    }

    /// The sentence that is shown for this error.
    pub fn message(&self) -> (r: String)
        ensures
            r@ == displayed(self@),
    {
        match self {
            AppError::Io(s) => joined("文件读取失败: ", s.as_str()),
            AppError::Zip(s) => joined("ZIP 容器解析失败: ", s.as_str()),
            AppError::Xml(s) => joined("XML 解析失败: ", s.as_str()),
            AppError::Encoding(s) => joined("文本编码检测失败: ", s.as_str()),
            AppError::DrmDetected => "该电子书包含 DRM 加密保护，无法在本地阅读器中打开".to_owned(),
            AppError::UnsupportedFormat(s) => joined("不支持的电子书格式: ", s.as_str()),
            AppError::BookNotOpen(s) => joined("书籍未打开或已被关闭: ", s.as_str()),
            AppError::ChapterOutOfRange(n) => with_number("章节索引超出范围: ", *n as u64),
            AppError::ResourceNotFound(s) => joined("书籍资源不存在: ", s.as_str()),
            AppError::Storage(s) => joined("本地持久化读写失败: ", s.as_str()),
            AppError::Other(s) => s.clone(),
        }
    }
}

} // verus!
