use vstd::prelude::*;
use std::sync::Arc;
use crate::block::OcrTextBlock;
use crate::control::ExportControl;
use crate::csv::{live_header, live_lines, render_live_csv, render_video_csv, video_header, video_lines};
use crate::extract::{
    extract_live_row, extract_video_row, is_live_page, is_live_row, is_video_page, is_video_row, live_page,
    video_page, LiveRow, VideoRow,
};
use crate::numbers::{decimal, parse_u64, spec_parse_u64, u64_decimal};
use crate::text::{append_chars, chars_of, string_of};
use crate::tier::OcrModelTier;

verus! {

/// Where missing models are fetched from.
pub const DEFAULT_MODEL_CDN_BASE_URL: &'static str = "https://assets.checkpoint321.com/wjm/models/";

/// The detection model of the medium tier in the default model directory.
pub const DEFAULT_DET_MODEL_PATH: &'static str = "models/PP-OCRv6_medium_det.mnn";

/// The recognition model of the medium tier in the default model directory.
pub const DEFAULT_REC_MODEL_PATH: &'static str = "models/PP-OCRv6_medium_rec.mnn";

/// The character set of the medium tier in the default model directory.
pub const DEFAULT_CHARSET_PATH: &'static str = "models/ppocr_keys_v6_medium.txt";

/// How an export runs: which directory it reads, where the models are and which tier
/// it uses, where missing models come from, and who may pause or stop it.
#[derive(Clone, Debug)]
pub struct ExportOptions {
    pub image_dir: String,
    pub model_dir: String,
    pub model_tier: OcrModelTier,
    pub model_cdn_base_url: String,
    pub download_missing_models: bool,
    pub control: Option<Arc<ExportControl>>,
}

impl ExportOptions {
    /// Options for exporting `image_dir` with the medium models under `models`,
    /// downloading missing ones from the default address, with no control.
    pub fn new(image_dir: String) -> (r: ExportOptions)
        ensures
            r.image_dir@ == image_dir@,
            r.model_dir@ == "models"@,
            r.model_tier == OcrModelTier::Medium,
            r.model_cdn_base_url@ == DEFAULT_MODEL_CDN_BASE_URL@,
            r.download_missing_models,
            r.control is None,
    {
        ExportOptions {
            image_dir,
            model_dir: String::from_str("models"),
            model_tier: OcrModelTier::Medium,
            model_cdn_base_url: String::from_str(DEFAULT_MODEL_CDN_BASE_URL),
            download_missing_models: true,
            control: None,
        }
    }

    /// The same options with models looked for in `model_dir`.
    pub fn with_model_dir(self, model_dir: String) -> (r: ExportOptions)
        ensures
            r == (ExportOptions { model_dir, ..self }),
    {
        ExportOptions { model_dir, ..self }
    }

    /// The same options with the models of `model_tier`.
    pub fn with_model_tier(self, model_tier: OcrModelTier) -> (r: ExportOptions)
        ensures
            r == (ExportOptions { model_tier, ..self }),
    {
        ExportOptions { model_tier, ..self }
    }

    /// The same options, paused and stopped through `control`.
    pub fn with_control(self, control: Arc<ExportControl>) -> (r: ExportOptions)
        ensures
            r == (ExportOptions { control: Some(control), ..self }),
    {
        ExportOptions { control: Some(control), ..self }
    }
}

/// Progress after an image: its position among the images, counted from one, the
/// number of images, its path, and whether its text came from the cache.
#[derive(Clone, Debug)]
pub struct ExportProgress {
    pub current: usize,
    pub total: usize,
    pub image_path: String,
    pub cache_hit: bool,
}

/// What an export wrote: the two files and how many images and rows there were.
#[derive(Clone, Debug)]
pub struct ExportSummary {
    pub live_csv_path: String,
    pub video_csv_path: String,
    pub image_count: usize,
    pub live_row_count: usize,
    pub video_row_count: usize,
}

/// The progress report after the image at position `index` (from zero) of `total`.
pub fn image_progress(index: usize, total: usize, image_path: String, cache_hit: bool) -> (r: ExportProgress)
    requires
        index < total,
    ensures
        r.current == index + 1,
        r.total == total,
        r.image_path@ == image_path@,
        r.cache_hit == cache_hit,
{
    ExportProgress { current: index + 1, total, image_path, cache_hit }
}

/// The line that reports an image: its position and the number of images, its file
/// name (`<unknown>` when it has none), and a mark when its text came from the cache.
pub open spec fn progress_line(current: nat, total: nat, file_name: Option<Seq<char>>, cache_hit: bool) -> Seq<char> {
    decimal(current) + "/"@ + decimal(total) + " "@ + (match file_name {
        Some(n) => n,
        None => "<unknown>"@,
    }) + (if cache_hit { " (cache hit)"@ } else { Seq::empty() })
}

/// The progress line of `progress`, for an image whose file name is `file_name`.
pub fn image_progress_line(progress: &ExportProgress, file_name: Option<&str>) -> (r: String)
    ensures
        r@ == progress_line(progress.current as nat, progress.total as nat, match file_name {
            Some(n) => Some(n@),
            None => None,
        }, progress.cache_hit),
{
    let mut out = u64_decimal(progress.current as u64);
    out.push('/');
    let total = u64_decimal(progress.total as u64);
    append_chars(&mut out, &total);
    out.push(' ');
    let name = match file_name {
        Some(n) => chars_of(n),
        None => chars_of("<unknown>"),
    };
    append_chars(&mut out, &name);
    if progress.cache_hit {
        let mark = chars_of(" (cache hit)");
        append_chars(&mut out, &mark);
    }
    proof {
        reveal_strlit("/");
        reveal_strlit(" ");
    }
    assert(out@ =~= progress_line(progress.current as nat, progress.total as nat, match file_name {
        Some(n) => Some(n@),
        None => None,
    }, progress.cache_hit));
    string_of(&out)
}

/// What an export does before its next image, given the requests it sees.
#[derive(Clone, Copy, Debug, PartialEq, Eq, Structural)]
pub enum ResumeDecision {
    /// Go on with the next image.
    Continue,
    /// Look again after a short wait.
    Wait,
    /// End the export with `导出已中止`.
    Abort,
}

/// A stop request ends the export; a pause request alone makes it wait; with neither
/// it goes on.
pub fn resume_decision(paused: bool, stopped: bool) -> (r: ResumeDecision)
    ensures
        stopped ==> r == ResumeDecision::Abort,
        !stopped && paused ==> r == ResumeDecision::Wait,
        !stopped && !paused ==> r == ResumeDecision::Continue,
{
    if stopped {
        ResumeDecision::Abort
    } else if paused {
        ResumeDecision::Wait
    } else {
        ResumeDecision::Continue
    }
}

/// The rows gathered so far by an export, live and video.
#[derive(Debug)]
pub struct ExportRun {
    pub live_rows: Vec<LiveRow>,
    pub video_rows: Vec<VideoRow>,
}

impl ExportRun {
    /// A run with no rows.
    pub fn new() -> (r: ExportRun)
        ensures
            r.live_rows@.len() == 0,
            r.video_rows@.len() == 0,
    {
        ExportRun { live_rows: Vec::new(), video_rows: Vec::new() }
    }

    /// Adds the rows of one page: a live row when it is a live page, a video row when
    /// it is a video page (a page may be both, or neither).
    pub fn record_page<C, F: Fn(String) -> Option<u64>>(&mut self, file_name: &str, blocks: &[OcrTextBlock<C>], scale: &F)
        requires
            forall|n: String| scale.requires((n,)),
        ensures
            live_page(blocks@) ==> {
                &&& final(self).live_rows@.len() == old(self).live_rows@.len() + 1
                &&& final(self).live_rows@.drop_last() == old(self).live_rows@
                &&& is_live_row(final(self).live_rows@.last(), file_name@, blocks@, *scale)
            },
            !live_page(blocks@) ==> final(self).live_rows@ == old(self).live_rows@,
            video_page(blocks@) ==> {
                &&& final(self).video_rows@.len() == old(self).video_rows@.len() + 1
                &&& final(self).video_rows@.drop_last() == old(self).video_rows@
                &&& is_video_row(final(self).video_rows@.last(), file_name@, blocks@)
            },
            !video_page(blocks@) ==> final(self).video_rows@ == old(self).video_rows@,
    {
        if is_live_page(blocks) {
            let row = extract_live_row(file_name, blocks, scale);
            self.live_rows.push(row);
            assert(self.live_rows@.drop_last() =~= old(self).live_rows@);
        }
        if is_video_page(blocks) {
            let row = extract_video_row(file_name, blocks);
            self.video_rows.push(row);
            assert(self.video_rows@.drop_last() =~= old(self).video_rows@);
        }
    }

    /// The live export file of the rows so far.
    pub fn live_csv(&self) -> (r: String)
        ensures
            r@ == live_header() + live_lines(self.live_rows@),
    {
        render_live_csv(&self.live_rows)
    }

    /// The video export file of the rows so far.
    pub fn video_csv(&self) -> (r: String)
        ensures
            r@ == video_header() + video_lines(self.video_rows@),
    {
        render_video_csv(&self.video_rows)
    }

    /// The summary of a run over `image_count` images whose files were written to the
    /// given paths.
    pub fn summary(&self, image_count: usize, live_csv_path: String, video_csv_path: String) -> (r: ExportSummary)
        ensures
            r.live_csv_path@ == live_csv_path@,
            r.video_csv_path@ == video_csv_path@,
            r.image_count == image_count,
            r.live_row_count == self.live_rows@.len(),
            r.video_row_count == self.video_rows@.len(),
    {
        ExportSummary {
            live_csv_path,
            video_csv_path,
            image_count,
            live_row_count: self.live_rows.len(),
            video_row_count: self.video_rows.len(),
        }
    }
}

/// Adds a line to a progress log: after a line break unless the log is empty.
pub fn append_progress_text(progress: &mut String, line: &str)
    ensures
        final(progress)@ == if old(progress)@.len() == 0 {
            line@
        } else {
            old(progress)@ + "\n"@ + line@
        },
{
    proof {
        reveal_strlit("\n");
    }
    if !progress.as_str().is_empty() {
        progress.append("\n");
    }
    progress.append(line);
}

/// The most a model download may read, 512 MiB.
pub const MODEL_DOWNLOAD_LIMIT_BYTES: u64 = 536870912;

/// How long a download goes between two progress reports, 200 ms, in nanoseconds.
pub const DOWNLOAD_REPORT_INTERVAL_NANOS: u64 = 200000000;

/// The state of a model download: the bytes read so far, and when progress was last
/// reported, in nanoseconds after the download started.
#[derive(Clone, Copy, Debug)]
pub struct DownloadTracker {
    pub downloaded_bytes: u64,
    pub last_reported_nanos: u64,
}

impl DownloadTracker {
    /// A download that has read nothing and reported at its start.
    pub fn new() -> (r: DownloadTracker)
        ensures
            r.downloaded_bytes == 0,
            r.last_reported_nanos == 0,
    {
        DownloadTracker { downloaded_bytes: 0, last_reported_nanos: 0 }
    }

    /// Counts a chunk of `read_len` bytes read at `now_nanos`; tells whether progress is
    /// to be reported now, which is when the interval has passed since the last report
    /// (a clock that went back counts as no time passed).
    pub fn record_chunk(&mut self, read_len: u64, now_nanos: u64) -> (report: bool)
        requires
            old(self).downloaded_bytes + read_len <= u64::MAX,
        ensures
            final(self).downloaded_bytes == old(self).downloaded_bytes + read_len,
            report == (now_nanos >= old(self).last_reported_nanos
                && now_nanos - old(self).last_reported_nanos >= DOWNLOAD_REPORT_INTERVAL_NANOS),
            final(self).last_reported_nanos == if report { now_nanos } else { old(self).last_reported_nanos },
    {
        self.downloaded_bytes = self.downloaded_bytes + read_len;
        let elapsed = now_nanos.saturating_sub(self.last_reported_nanos);
        if elapsed >= DOWNLOAD_REPORT_INTERVAL_NANOS {
            self.last_reported_nanos = now_nanos;
            true
        } else {
            false
        }
    }

    /// The size of a finished download from `url`; a download that read nothing is an
    /// error.
    pub fn finish(&self, url: &str) -> (r: Result<u64, String>)
        ensures
            self.downloaded_bytes > 0 <==> r is Ok,
            r matches Ok(n) ==> n == self.downloaded_bytes,
            r matches Err(e) ==> e@ == "downloaded file is empty: "@ + url@,
    {
        if self.downloaded_bytes > 0 {
            Ok(self.downloaded_bytes)
        } else {
            let mut e = String::from_str("downloaded file is empty: ");
            e.append(url);
            Err(e)
        }
    }
}

/// `s` without the slashes at its end.
pub open spec fn trim_end_slashes(s: Seq<char>) -> Seq<char>
    decreases s.len(),
{
    if s.len() > 0 && s.last() == '/' {
        trim_end_slashes(s.drop_last())
    } else {
        s
    }
}

/// The address of a model file under a base address, joined by one slash.
pub open spec fn model_url(base: Seq<char>, file_name: Seq<char>) -> Seq<char> {
    trim_end_slashes(base) + seq!['/'] + file_name
}

/// The address to download the model file `file_name` from.
pub fn model_download_url(cdn_base_url: &str, file_name: &str) -> (r: String)
    ensures
        r@ == model_url(cdn_base_url@, file_name@),
{
    let b = chars_of(cdn_base_url);
    let mut end: usize = b.len();
    assert(b@.take(end as int) =~= b@);
    while end > 0 && b[end - 1] == '/'
        invariant
            end <= b.len(),
            trim_end_slashes(b@) == trim_end_slashes(b@.take(end as int)),
        decreases end,
    {
        assert(b@.take(end as int).drop_last() =~= b@.take(end - 1));
        end = end - 1;
    }
    assert(trim_end_slashes(b@.take(end as int)) == b@.take(end as int));
    let mut out = crate::text::copy_range(&b, 0, end);
    out.push('/');
    let f = chars_of(file_name);
    crate::text::append_chars(&mut out, &f);
    assert(b@.subrange(0, end as int) =~= b@.take(end as int));
    string_of(&out)
}

/// The extension of the temporary file a download goes to: the model file's
/// extension, or `download`, followed by `.tmp`.
pub fn download_temp_extension(extension: Option<&str>) -> (r: String)
    ensures
        r@ == (match extension { Some(e) => e@, None => "download"@ }) + ".tmp"@,
{
    let mut s = match extension {
        Some(e) => String::from_str(e),
        None => String::from_str("download"),
    };
    s.append(".tmp");
    s
}

/// A length as an HTTP `content-length` header states it, read as `u64`.
pub fn parse_content_length(value: &str) -> (r: Option<u64>)
    ensures
        r == spec_parse_u64(value@),
{
    let v = chars_of(value);
    parse_u64(&v)
}

} // verus!
