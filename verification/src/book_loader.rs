//! Book loading stages and results.
use vstd::prelude::*;

verus! {

/// Stage of a book load.
#[derive(Debug, Clone, Copy, PartialEq, Eq, Structural)]
pub enum LoadingStage {
    /// Detecting the file format.
    DetectingFormat,
    /// Opening the file.
    OpeningFile,
    /// Parsing the book's metadata.
    ParsingMetadata,
    /// Extracting the chapter list.
    ExtractingChapters,
    /// Loaded.
    Completed,
    /// Failed.
    Error,
}

/// The user-facing description of a stage.
pub open spec fn stage_description(s: LoadingStage) -> Seq<char> {
    match s {
        LoadingStage::DetectingFormat => "正在检测文件格式..."@,
        LoadingStage::OpeningFile => "正在打开文件..."@,
        LoadingStage::ParsingMetadata => "正在解析书籍信息..."@,
        LoadingStage::ExtractingChapters => "正在提取章节列表..."@,
        LoadingStage::Completed => "加载完成"@,
        LoadingStage::Error => "加载失败"@,
    }
}

impl LoadingStage {
    /// The stage's description (in Chinese).
    pub fn description(&self) -> (r: &'static str)
        ensures
            r@ == stage_description(*self),
    {
        match self {
            LoadingStage::DetectingFormat => "正在检测文件格式...",
            LoadingStage::OpeningFile => "正在打开文件...",
            LoadingStage::ParsingMetadata => "正在解析书籍信息...",
            LoadingStage::ExtractingChapters => "正在提取章节列表...",
            LoadingStage::Completed => "加载完成",
            LoadingStage::Error => "加载失败",
        }
    }
}

/// Result of loading a book.
#[derive(Debug, Clone)]
pub struct BookLoadResult {
    pub book_id: String,
    pub title: String,
    pub author: String,
    pub total_chapters: usize,
    /// File format name.
    pub format: String,
}

} // verus!
