//! The persistence layer's decisions: what a load yields for each state
//! of the data file, the exact bytes of a save, startup reconciliation,
//! and the framing and rotation rules of the activity log. The file
//! system calls themselves stay at the boundary, which reads, writes a
//! temporary sibling and renames it over the data file, copies a corrupt
//! file to its backup path, and renames an oversized log.

use vstd::prelude::*;
use crate::model::AppData;
use crate::model::spec_default_app_data;
use crate::model::wf_app_data;
use crate::model::unique_ips;
use crate::model::sorted_by_timestamp_desc;
use crate::bytes::is_blank;
use crate::bytes::spec_is_blank;
use crate::bytes::clone_bytes;
use crate::codec::enc_app_data;
use crate::codec::enc_u64;
use crate::codec::p_document;
use crate::codec::decode_app_data;
use crate::codec::encode_app_data;
use crate::codec::lemma_document_wf;
use crate::store::spec_collapse_history;
use crate::store::spec_collapse_bookmarks;
use crate::store::unique_bm_keys;
use crate::outside::format_utc_millis;
use crate::outside::utc_text_of;

verus! {

/// Bytes past which the activity log is rotated to its `.old` sibling.
pub const LOG_ROTATION_LIMIT: u64 = 5242880;

/// Bytes past which combined file usage counts as high.
pub const HIGH_DISK_USAGE: u64 = 10485760;

/// What a load decided; the variant tells the boundary what else to do.
pub enum LoadOutcome {
    /// No data file existed: fresh defaults.
    Fresh(AppData),
    /// The file was empty or whitespace: defaults, worth a warning.
    EmptyFile(AppData),
    /// The bytes were not a saved aggregate: defaults; the caller should
    /// first copy the corrupt file to its backup path, best effort.
    Corrupt(AppData),
    /// The saved aggregate, after startup reconciliation.
    Loaded(AppData),
}

/// A save, ready for the atomic write protocol: the caller writes the
/// payload to a temporary sibling path and renames it over the data
/// file, so the data file is never seen partially written; a leftover
/// temporary file from an interrupted save is simply overwritten.
pub struct SavePlan {
    pub payload: Vec<u8>,
    pub over_limit_warning: bool,
}

/// The persistence layer's decision logic.
pub struct FileManager;

impl FileManager {
    /// Decide a load from what the boundary read: `None` when no data
    /// file exists, otherwise the file's bytes. Corruption is never
    /// propagated: the caller gets defaults and backs the file up. A
    /// successful parse is reconciled: duplicate history entries and
    /// bookmarks collapse and the address log's invariants are
    /// restored, so a well-formed save loads back unchanged.
    pub fn load_from_file(content: Option<&Vec<u8>>) -> (r: LoadOutcome)
        ensures
            match content {
                None => r matches LoadOutcome::Fresh(d) && d.deep_view()
                    == spec_default_app_data(),
                Some(c) => {
                    if spec_is_blank(c@) {
                        r matches LoadOutcome::EmptyFile(d) && d.deep_view()
                            == spec_default_app_data()
                    } else if p_document(c@) is Some {
                        let parsed = p_document(c@).unwrap();
                        r matches LoadOutcome::Loaded(d) && {
                            &&& d.deep_view().version == parsed.version
                            &&& d.deep_view().settings == parsed.settings
                            &&& d.deep_view().history == spec_collapse_history(parsed.history)
                            &&& d.deep_view().bookmarks == spec_collapse_bookmarks(
                                parsed.bookmarks,
                            )
                            &&& unique_ips(d.deep_view().recent_ips)
                            &&& sorted_by_timestamp_desc(d.deep_view().recent_ips)
                            &&& wf_app_data(d.deep_view())
                            &&& (wf_app_data(parsed) && unique_bm_keys(parsed.bookmarks)
                                ==> d.deep_view() == parsed)
                        }
                    } else {
                        r matches LoadOutcome::Corrupt(d) && d.deep_view()
                            == spec_default_app_data()
                    }
                },
            },
    {
        match content {
            None => LoadOutcome::Fresh(AppData::default()),
            Some(c) => {
                if is_blank(c) {
                    LoadOutcome::EmptyFile(AppData::default())
                } else {
                    match decode_app_data(c) {
                        None => LoadOutcome::Corrupt(AppData::default()),
                        Some(mut d) => {
                            proof {
                                lemma_document_wf(c@);
                            }
                            let ghost parsed = d.deep_view();
                            d.collapse_duplicate_history();
                            d.collapse_duplicate_bookmarks();
                            d.repair_address_log();
                            proof {
                                if wf_app_data(parsed) && unique_bm_keys(parsed.bookmarks) {
                                    assert(d.deep_view() == parsed);
                                }
                            }
                            LoadOutcome::Loaded(d)
                        },
                    }
                }
            },
        }
    }

    /// Serialize a save. The payload is the canonical rendering of the
    /// aggregate; the warning flags a history more than twice over its
    /// limit, which signals the limit was bypassed upstream but does not
    /// block the save.
    pub fn save_to_file(data: &AppData) -> (r: SavePlan)
        ensures
            r.payload@ == enc_app_data(data.deep_view()),
            r.over_limit_warning == (data.deep_view().history.len() > 2 * (
            data.deep_view().settings.history_limit as int)),
    {
        let payload = encode_app_data(data);
        let warn = (data.history.len() as u128) > 2 * (data.settings.history_limit as u128);
        SavePlan { payload, over_limit_warning: warn }
    }

    /// Whether the activity log must rotate before the next append.
    pub fn should_rotate_log(log_size: u64) -> (r: bool)
        ensures
            r == (log_size > LOG_ROTATION_LIMIT),
    {
        log_size > LOG_ROTATION_LIMIT
    }

    /// Whether combined file usage counts as high.
    pub fn disk_usage_high(data_size: u64, log_size: u64) -> (r: bool)
        ensures
            r == (data_size + log_size > HIGH_DISK_USAGE),
    {
        data_size.saturating_add(log_size) > HIGH_DISK_USAGE
    }

    /// The last `max_lines` lines of the log, oldest first.
    pub fn get_log_content(lines: &Vec<Vec<u8>>, max_lines: usize) -> (r: Vec<Vec<u8>>)
        ensures
            r.deep_view() == if lines.deep_view().len() <= max_lines {
                lines.deep_view()
            } else {
                lines.deep_view().skip(lines.deep_view().len() - max_lines)
            },
    {
        let ghost ld = lines.deep_view();
        let start: usize = if lines.len() > max_lines {
            lines.len() - max_lines
        } else {
            0
        };
        let mut r: Vec<Vec<u8>> = Vec::new();
        let mut i: usize = start;
        while i < lines.len()
            invariant
                ld == lines.deep_view(),
                start <= i <= lines@.len(),
                r.deep_view() == ld.subrange(start as int, i as int),
            decreases lines@.len() - i,
        {
            r.push(clone_bytes(&lines[i]));
            proof {
                broadcast use crate::model::group_deep_seq, crate::bytes::lemma_bytes_deep_view;

                assert(ld[i as int] == lines@[i as int].deep_view());
                assert(r.deep_view() =~= ld.subrange(start as int, i + 1 as int));
            }
            i = i + 1;
        }
        proof {
            if ld.len() <= max_lines {
                assert(ld.subrange(0, ld.len() as int) =~= ld);
            } else {
                assert(ld.subrange(start as int, ld.len() as int) =~= ld.skip(
                    ld.len() - max_lines,
                ));
            }
        }
        r
    }
}

/// One framed activity-log line.
pub open spec fn spec_log_line(ts: Seq<u8>, level: Seq<u8>, msg: Seq<u8>) -> Seq<u8> {
    seq![91u8] + ts + seq![93u8, 32u8] + level + seq![58u8, 32u8] + msg + seq![10u8]
}

/// Frame one log line: `[timestamp] LEVEL: message` and a newline.
pub fn format_log_line(ts_text: &Vec<u8>, level: &Vec<u8>, message: &Vec<u8>) -> (r: Vec<u8>)
    ensures
        r@ == spec_log_line(ts_text@, level@, message@),
{
    let mut r: Vec<u8> = Vec::new();
    r.push(91);
    append_bytes(&mut r, ts_text);
    r.push(93);
    r.push(32);
    append_bytes(&mut r, level);
    r.push(58);
    r.push(32);
    append_bytes(&mut r, message);
    r.push(10);
    proof {
        assert(r@ =~= spec_log_line(ts_text@, level@, message@));
    }
    r
}

fn append_bytes(out: &mut Vec<u8>, s: &Vec<u8>)
    ensures
        final(out)@ == old(out)@ + s@,
{
    let mut k: usize = 0;
    while k < s.len()
        invariant
            0 <= k <= s@.len(),
            out@ == old(out)@ + s@.subrange(0, k as int),
        decreases s@.len() - k,
    {
        out.push(s[k]);
        proof {
            assert(out@ =~= old(out)@ + s@.subrange(0, k + 1 as int));
        }
        k = k + 1;
    }
    proof {
        assert(s@.subrange(0, s@.len() as int) =~= s@);
    }
}

/// Render one log entry for an instant: the timestamp text is chrono's
/// where the instant is representable, and the plain decimal millisecond
/// count otherwise.
pub fn render_log_entry(now_ms: i64, level: &Vec<u8>, message: &Vec<u8>) -> (r: Vec<u8>)
    ensures
        exists|t: Seq<u8>|
            (t == utc_text_of(now_ms) || t == enc_u64(
                if now_ms < 0 {
                    0u64
                } else {
                    now_ms as u64
                },
            )) && r@ == #[trigger] spec_log_line(t, level@, message@),
{
    match format_utc_millis(now_ms) {
        Some(ts) => format_log_line(&ts, level, message),
        None => {
            let ms: u64 = if now_ms < 0 {
                0
            } else {
                now_ms as u64
            };
            let digits = crate::codec::u64_text(ms);
            format_log_line(&digits, level, message)
        },
    }
}

} // verus!
