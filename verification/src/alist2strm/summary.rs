//! The counters of one Alist2Strm run and the summary made of them at its
//! end. Times are milliseconds since the Unix epoch; the caller reads the
//! clock and hands the readings in.
use vstd::prelude::*;
use crate::alist2strm::config::Config;
use crate::text::to_string;

verus! {

/// The structured summary of one finished run, for logs and notifications.
#[derive(Clone, Debug)]
pub struct RunSummary {
    pub task_id: String,
    pub source_dir: String,
    pub target_dir: String,
    /// When the run started (milliseconds since the Unix epoch, UTC).
    pub start_time: i64,
    /// When the run ended (milliseconds since the Unix epoch, UTC).
    pub end_time: i64,
    /// How long the run took, in milliseconds of the monotonic clock.
    pub duration: u64,
    pub scanned_dir_count: usize,
    pub skipped_dir_count: usize,
    pub discovered_file_count: usize,
    pub matched_file_count: usize,
    pub filtered_file_count: usize,
    pub bdmv_collection_count: usize,
    pub bdmv_selected_count: usize,
    pub strm_created_count: usize,
    pub strm_updated_count: usize,
    pub strm_skipped_count: usize,
    pub attachment_downloaded_count: usize,
    pub attachment_updated_count: usize,
    pub attachment_skipped_count: usize,
    pub local_deleted_count: usize,
    pub local_delete_ignored_count: usize,
    pub failed_path_count: usize,
}

/// The counters of a run in progress.
#[derive(Debug)]
pub struct RunStats {
    pub start_time: i64,
    pub scanned_dir_count: usize,
    pub skipped_dir_count: usize,
    pub discovered_file_count: usize,
    pub matched_file_count: usize,
    pub filtered_file_count: usize,
    pub bdmv_collection_count: usize,
    pub bdmv_selected_count: usize,
    pub strm_created_count: usize,
    pub strm_updated_count: usize,
    pub strm_skipped_count: usize,
    pub attachment_downloaded_count: usize,
    pub attachment_updated_count: usize,
    pub attachment_skipped_count: usize,
    pub local_deleted_count: usize,
    pub local_delete_ignored_count: usize,
    pub failed_path_count: usize,
}

/// One more than `n`, wrapping to 0 past `usize::MAX`.
pub open spec fn bumped_count(n: usize) -> usize {
    if n == usize::MAX {
        0
    } else {
        (n + 1) as usize
    }
}

/// Every counter of the stats is 0.
pub open spec fn all_zero(s: RunStats) -> bool {
    &&& s.scanned_dir_count == 0
    &&& s.skipped_dir_count == 0
    &&& s.discovered_file_count == 0
    &&& s.matched_file_count == 0
    &&& s.filtered_file_count == 0
    &&& s.bdmv_collection_count == 0
    &&& s.bdmv_selected_count == 0
    &&& s.strm_created_count == 0
    &&& s.strm_updated_count == 0
    &&& s.strm_skipped_count == 0
    &&& s.attachment_downloaded_count == 0
    &&& s.attachment_updated_count == 0
    &&& s.attachment_skipped_count == 0
    &&& s.local_deleted_count == 0
    &&& s.local_delete_ignored_count == 0
    &&& s.failed_path_count == 0
}

/// The summary carries the configuration's task, the given times and every
/// counter of the stats unchanged.
pub open spec fn summary_of(s: RunStats, config: Config, end_time: i64, duration: u64, r: RunSummary) -> bool {
    &&& r.task_id@ == config.id@
    &&& r.source_dir@ == config.source_dir@
    &&& r.target_dir@ == config.target_dir@
    &&& r.start_time == s.start_time
    &&& r.end_time == end_time
    &&& r.duration == duration
    &&& r.scanned_dir_count == s.scanned_dir_count
    &&& r.skipped_dir_count == s.skipped_dir_count
    &&& r.discovered_file_count == s.discovered_file_count
    &&& r.matched_file_count == s.matched_file_count
    &&& r.filtered_file_count == s.filtered_file_count
    &&& r.bdmv_collection_count == s.bdmv_collection_count
    &&& r.bdmv_selected_count == s.bdmv_selected_count
    &&& r.strm_created_count == s.strm_created_count
    &&& r.strm_updated_count == s.strm_updated_count
    &&& r.strm_skipped_count == s.strm_skipped_count
    &&& r.attachment_downloaded_count == s.attachment_downloaded_count
    &&& r.attachment_updated_count == s.attachment_updated_count
    &&& r.attachment_skipped_count == s.attachment_skipped_count
    &&& r.local_deleted_count == s.local_deleted_count
    &&& r.local_delete_ignored_count == s.local_delete_ignored_count
    &&& r.failed_path_count == s.failed_path_count
}

impl RunStats {
    /// Stats of a run that started at `start_time`, every counter at 0.
    pub fn new(start_time: i64) -> (res: RunStats)
        ensures
            res.start_time == start_time,
            all_zero(res),
    {
        RunStats {
            start_time,
            scanned_dir_count: 0,
            skipped_dir_count: 0,
            discovered_file_count: 0,
            matched_file_count: 0,
            filtered_file_count: 0,
            bdmv_collection_count: 0,
            bdmv_selected_count: 0,
            strm_created_count: 0,
            strm_updated_count: 0,
            strm_skipped_count: 0,
            attachment_downloaded_count: 0,
            attachment_updated_count: 0,
            attachment_skipped_count: 0,
            local_deleted_count: 0,
            local_delete_ignored_count: 0,
            failed_path_count: 0,
        }
    }

    /// Counts one more event on a counter (wrapping, as an atomic add does).
    pub fn inc(counter: &mut usize)
        ensures
            *final(counter) == bumped_count(*old(counter)),
    {
        *counter = counter.wrapping_add(1);
    }

    /// The summary of the run, ended at `end_time` after `duration`.
    pub fn summarize(&self, config: &Config, end_time: i64, duration: u64) -> (res: RunSummary)
        ensures
            summary_of(*self, *config, end_time, duration, res),
    {
        RunSummary {
            task_id: to_string(config.id.as_str()),
            source_dir: to_string(config.source_dir.as_str()),
            target_dir: to_string(config.target_dir.as_str()),
            start_time: self.start_time,
            end_time,
            duration,
            scanned_dir_count: self.scanned_dir_count,
            skipped_dir_count: self.skipped_dir_count,
            discovered_file_count: self.discovered_file_count,
            matched_file_count: self.matched_file_count,
            filtered_file_count: self.filtered_file_count,
            bdmv_collection_count: self.bdmv_collection_count,
            bdmv_selected_count: self.bdmv_selected_count,
            strm_created_count: self.strm_created_count,
            strm_updated_count: self.strm_updated_count,
            strm_skipped_count: self.strm_skipped_count,
            attachment_downloaded_count: self.attachment_downloaded_count,
            attachment_updated_count: self.attachment_updated_count,
            attachment_skipped_count: self.attachment_skipped_count,
            local_deleted_count: self.local_deleted_count,
            local_delete_ignored_count: self.local_delete_ignored_count,
            failed_path_count: self.failed_path_count,
        }
    }
}

} // verus!
