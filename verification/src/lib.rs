//! Reading Douyin statistics screenshots: the text a recognizer finds on a page is
//! joined into labels and values, live and video pages are told apart, their fields
//! are extracted, and the rows are written as CSV, with a cache of recognized text.

pub mod text;
pub mod numbers;
pub mod escape;
pub mod duration;
pub mod datetime;
pub mod metric;
pub mod block;
pub mod extract;
pub mod csv;
pub mod tier;
pub mod cache;
pub mod sort;
pub mod files;
pub mod control;
pub mod export;
pub mod ocr;
pub mod merge;

pub use block::OcrTextBlock;
pub use control::ExportControl;
pub use export::{
    ExportOptions, ExportProgress, ExportRun, ExportSummary, ResumeDecision, DEFAULT_CHARSET_PATH,
    DEFAULT_DET_MODEL_PATH, DEFAULT_MODEL_CDN_BASE_URL, DEFAULT_REC_MODEL_PATH,
};
pub use extract::{LiveRow, VideoRow};
pub use merge::MergedOcrResult;
pub use tier::OcrModelTier;
