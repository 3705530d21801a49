//! The capture monitor: the polling state machine that samples the
//! clipboard, detects change by fingerprint plus exact comparison,
//! feeds the store and reports what to announce. The timer, the
//! clipboard call and the notification delivery stay outside; each tick
//! hands in the sampled event and receives the decisions back.

use vstd::prelude::*;
use crate::model::AppData;
use crate::model::AppDataModel;
use crate::model::ClipboardItem;
use crate::model::group_deep_seq;
use crate::model::deep_seq;
use crate::model::IpHistoryItemModel;
use crate::bytes::clone_bytes;
use crate::bytes::bytes_eq;
use crate::bytes::is_blank;
use crate::bytes::spec_is_blank;
use crate::bytes::lemma_bytes_deep_view;
use crate::fingerprint::fingerprint;
use crate::fingerprint::spec_fingerprint;
use crate::scan::extract_ip_addresses;
use crate::scan::spec_extract_ips;
use crate::store::captured_entry;
use crate::store::spec_insert_history;
use crate::store::spec_insert_address;

verus! {

broadcast use group_deep_seq, lemma_bytes_deep_view;

/// Consecutive clipboard-acquisition failures after which the monitor
/// stops itself.
pub const ACQUIRE_FAILURE_LIMIT: u32 = 10;

/// Consecutive read failures after which the polling interval widens.
pub const READ_FAILURE_SLOWDOWN: u32 = 5;

/// The fast polling interval, in milliseconds.
pub const FAST_INTERVAL_MS: u64 = 250;

/// The fallback polling interval under persistent read failures.
pub const SLOW_INTERVAL_MS: u64 = 1000;

/// Mathematical view of a [`ClipboardMonitor`].
pub struct ClipboardMonitorModel {
    pub running: bool,
    pub last_fingerprint: Option<u64>,
    pub last_content: Option<Seq<u8>>,
    pub acquire_failures: u32,
    pub read_failures: u32,
    pub slow_interval: bool,
}

/// The monitor's whole state between ticks.
pub struct ClipboardMonitor {
    pub running: bool,
    pub last_fingerprint: Option<u64>,
    pub last_content: Option<Vec<u8>>,
    pub acquire_failures: u32,
    pub read_failures: u32,
    pub slow_interval: bool,
}

impl DeepView for ClipboardMonitor {
    type V = ClipboardMonitorModel;

    open spec fn deep_view(&self) -> ClipboardMonitorModel {
        ClipboardMonitorModel {
            running: self.running,
            last_fingerprint: self.last_fingerprint,
            last_content: match self.last_content {
                Some(ref c) => Some(c@),
                None => None,
            },
            acquire_failures: self.acquire_failures,
            read_failures: self.read_failures,
            slow_interval: self.slow_interval,
        }
    }
}

/// What one polling round observed.
pub enum TickEvent {
    /// The system clipboard could not be acquired.
    AcquireFailed,
    /// The clipboard was acquired but reading its text failed.
    ReadFailed,
    /// The clipboard text was read.
    ReadOk(Vec<u8>),
}

/// Mathematical view of a [`TickEvent`].
pub enum TickEventModel {
    AcquireFailed,
    ReadFailed,
    ReadOk(Seq<u8>),
}

impl DeepView for TickEvent {
    type V = TickEventModel;

    open spec fn deep_view(&self) -> TickEventModel {
        match self {
            TickEvent::AcquireFailed => TickEventModel::AcquireFailed,
            TickEvent::ReadFailed => TickEventModel::ReadFailed,
            TickEvent::ReadOk(t) => TickEventModel::ReadOk(t@),
        }
    }
}

/// What the boundary must do after a tick: announce the changed content,
/// announce each detected address, and stop scheduling when the monitor
/// stopped itself.
pub struct TickOutcome {
    pub content_changed: bool,
    pub detected_ips: Vec<Vec<u8>>,
    pub self_stopped: bool,
}

/// Saturating counter bump.
pub open spec fn sat_inc32(c: u32) -> u32 {
    if c == u32::MAX {
        c
    } else {
        (c + 1) as u32
    }
}

/// The content tag the capture path assigns.
pub open spec fn spec_text_tag() -> Seq<u8> {
    // "text"
    seq![116u8, 101u8, 120u8, 116u8]
}

/// The address log after recording each detected address in order.
pub open spec fn fold_addresses(
    s: Seq<IpHistoryItemModel>,
    limit: int,
    ips: Seq<Seq<u8>>,
    now: u64,
) -> Seq<IpHistoryItemModel>
    decreases ips.len(),
{
    if ips.len() == 0 {
        s
    } else {
        fold_addresses(spec_insert_address(s, limit, ips[0], now), limit, ips.skip(1), now)
    }
}

/// The complete result of one tick.
pub struct TickResult {
    pub state: ClipboardMonitorModel,
    pub data: AppDataModel,
    pub content_changed: bool,
    pub detected: Seq<Seq<u8>>,
    pub self_stopped: bool,
}

/// The per-tick transition. While stopped nothing happens. An
/// acquisition failure bumps its counter and stops the monitor at the
/// limit. A read failure bumps its own counter and widens the polling
/// interval past the slowdown mark; acquisition is known to have worked,
/// so that counter resets. A successful read resets both counters and
/// the interval; the sample is skipped when it is blank or its
/// fingerprint equals the last observed one, and otherwise compared
/// exactly against the last observed text: only a real change is stored
/// and scanned for addresses.
pub open spec fn spec_tick(
    st: ClipboardMonitorModel,
    d: AppDataModel,
    ev: TickEventModel,
    id: Seq<u8>,
    now: u64,
) -> TickResult {
    if !st.running {
        TickResult {
            state: st,
            data: d,
            content_changed: false,
            detected: Seq::empty(),
            self_stopped: false,
        }
    } else {
        match ev {
            TickEventModel::AcquireFailed => {
                let n = sat_inc32(st.acquire_failures);
                TickResult {
                    state: ClipboardMonitorModel {
                        acquire_failures: n,
                        running: n < ACQUIRE_FAILURE_LIMIT,
                        ..st
                    },
                    data: d,
                    content_changed: false,
                    detected: Seq::empty(),
                    self_stopped: n >= ACQUIRE_FAILURE_LIMIT,
                }
            },
            TickEventModel::ReadFailed => {
                let n = sat_inc32(st.read_failures);
                TickResult {
                    state: ClipboardMonitorModel {
                        acquire_failures: 0,
                        read_failures: n,
                        slow_interval: st.slow_interval || n >= READ_FAILURE_SLOWDOWN,
                        ..st
                    },
                    data: d,
                    content_changed: false,
                    detected: Seq::empty(),
                    self_stopped: false,
                }
            },
            TickEventModel::ReadOk(t) => {
                let st1 = ClipboardMonitorModel {
                    acquire_failures: 0,
                    read_failures: 0,
                    slow_interval: false,
                    ..st
                };
                let fp = spec_fingerprint(t);
                if spec_is_blank(t) || st.last_fingerprint == Some(fp) {
                    TickResult {
                        state: st1,
                        data: d,
                        content_changed: false,
                        detected: Seq::empty(),
                        self_stopped: false,
                    }
                } else {
                    let st2 = ClipboardMonitorModel { last_fingerprint: Some(fp), ..st1 };
                    if st.last_content == Some(t) {
                        TickResult {
                            state: st2,
                            data: d,
                            content_changed: false,
                            detected: Seq::empty(),
                            self_stopped: false,
                        }
                    } else {
                        let st3 = ClipboardMonitorModel { last_content: Some(t), ..st2 };
                        let item = captured_entry(id, t, spec_text_tag(), now);
                        let ips = spec_extract_ips(t);
                        TickResult {
                            state: st3,
                            data: AppDataModel {
                                history: spec_insert_history(
                                    d.history,
                                    d.settings.history_limit as int,
                                    item,
                                ),
                                recent_ips: fold_addresses(
                                    d.recent_ips,
                                    d.settings.ip_limit as int,
                                    ips,
                                    now,
                                ),
                                ..d
                            },
                            content_changed: true,
                            detected: ips,
                            self_stopped: false,
                        }
                    }
                }
            },
        }
    }
}

fn text_tag() -> (r: Vec<u8>)
    ensures
        r@ == spec_text_tag(),
{
    let mut v: Vec<u8> = Vec::new();
    v.push(116);
    v.push(101);
    v.push(120);
    v.push(116);
    proof {
        assert(v@ =~= spec_text_tag());
    }
    v
}

impl ClipboardMonitor {
    /// A monitor that has not been started.
    pub fn new() -> (r: Self)
        ensures
            r.deep_view() == (ClipboardMonitorModel {
                running: false,
                last_fingerprint: None,
                last_content: None,
                acquire_failures: 0,
                read_failures: 0,
                slow_interval: false,
            }),
    {
        ClipboardMonitor {
            running: false,
            last_fingerprint: None,
            last_content: None,
            acquire_failures: 0,
            read_failures: 0,
            slow_interval: false,
        }
    }

    /// Request the polling to start; a second request while running is a
    /// no-op reporting that no new task is needed.
    pub fn start_monitoring(&mut self) -> (started: bool)
        ensures
            final(self).deep_view() == (ClipboardMonitorModel {
                running: true,
                ..old(self).deep_view()
            }),
            started == !old(self).running,
    {
        let was = self.running;
        self.running = true;
        !was
    }

    /// Request the polling to stop; the running task observes the flag at
    /// its next tick.
    pub fn stop_monitoring(&mut self)
        ensures
            final(self).deep_view() == (ClipboardMonitorModel {
                running: false,
                ..old(self).deep_view()
            }),
    {
        self.running = false;
    }

    /// The interval the boundary should wait between ticks.
    pub fn poll_interval_ms(&self) -> (r: u64)
        ensures
            r == if self.slow_interval {
                SLOW_INTERVAL_MS
            } else {
                FAST_INTERVAL_MS
            },
    {
        if self.slow_interval {
            SLOW_INTERVAL_MS
        } else {
            FAST_INTERVAL_MS
        }
    }

    /// One polling round: digest the observed event under the fresh
    /// identifier and the instant handed in, mutate the store, and
    /// report what to announce.
    pub fn tick(&mut self, data: &mut AppData, event: TickEvent, id: Vec<u8>, now: u64) -> (out:
        TickOutcome)
        requires
            old(data).settings.history_limit >= 1,
            old(data).settings.ip_limit >= 1,
        ensures
            ({
                let r = spec_tick(
                    old(self).deep_view(),
                    old(data).deep_view(),
                    event.deep_view(),
                    id@,
                    now,
                );
                &&& final(self).deep_view() == r.state
                &&& final(data).deep_view() == r.data
                &&& out.content_changed == r.content_changed
                &&& out.detected_ips.deep_view() == r.detected
                &&& out.self_stopped == r.self_stopped
            }),
    {
        if !self.running {
            return TickOutcome {
                content_changed: false,
                detected_ips: Vec::new(),
                self_stopped: false,
            };
        }
        match event {
            TickEvent::AcquireFailed => {
                let n = if self.acquire_failures == u32::MAX {
                    self.acquire_failures
                } else {
                    self.acquire_failures + 1
                };
                self.acquire_failures = n;
                if n >= ACQUIRE_FAILURE_LIMIT {
                    self.running = false;
                    TickOutcome {
                        content_changed: false,
                        detected_ips: Vec::new(),
                        self_stopped: true,
                    }
                } else {
                    TickOutcome {
                        content_changed: false,
                        detected_ips: Vec::new(),
                        self_stopped: false,
                    }
                }
            },
            TickEvent::ReadFailed => {
                let n = if self.read_failures == u32::MAX {
                    self.read_failures
                } else {
                    self.read_failures + 1
                };
                self.acquire_failures = 0;
                self.read_failures = n;
                if n >= READ_FAILURE_SLOWDOWN {
                    self.slow_interval = true;
                }
                TickOutcome {
                    content_changed: false,
                    detected_ips: Vec::new(),
                    self_stopped: false,
                }
            },
            TickEvent::ReadOk(text) => {
                let ghost st0 = old(self).deep_view();
                self.acquire_failures = 0;
                self.read_failures = 0;
                self.slow_interval = false;
                let fp = fingerprint(&text);
                let blank = is_blank(&text);
                let fp_same = match self.last_fingerprint {
                    Some(h) => h == fp,
                    None => false,
                };
                if blank || fp_same {
                    return TickOutcome {
                        content_changed: false,
                        detected_ips: Vec::new(),
                        self_stopped: false,
                    };
                }
                self.last_fingerprint = Some(fp);
                let exact_same = match &self.last_content {
                    Some(prev) => bytes_eq(prev, &text),
                    None => false,
                };
                if exact_same {
                    return TickOutcome {
                        content_changed: false,
                        detected_ips: Vec::new(),
                        self_stopped: false,
                    };
                }
                let ips = extract_ip_addresses(&text);
                self.last_content = Some(clone_bytes(&text));
                let ghost tv = text@;
                let item = ClipboardItem::new(id, text, text_tag(), now);
                data.insert_history(item);
                let ghost s0 = deep_seq(data.recent_ips@);
                let ghost limit = data.settings.ip_limit as int;
                let ghost ipsd = ips.deep_view();
                let ghost hist1 = deep_seq(data.history@);
                let ghost bm1 = deep_seq(data.bookmarks@);
                let ghost ver1 = data.version@;
                let ghost set1 = data.settings.deep_view();
                proof {
                    assert(ipsd.skip(0) =~= ipsd);
                }
                let mut k: usize = 0;
                while k < ips.len()
                    invariant
                        data.settings.ip_limit >= 1,
                        limit == data.settings.ip_limit as int,
                        ipsd == ips.deep_view(),
                        0 <= k <= ips@.len(),
                        deep_seq(data.history@) == hist1,
                        deep_seq(data.bookmarks@) == bm1,
                        data.version@ == ver1,
                        data.settings.deep_view() == set1,
                        fold_addresses(s0, limit, ipsd, now) == fold_addresses(
                            deep_seq(data.recent_ips@),
                            limit,
                            ipsd.skip(k as int),
                            now,
                        ),
                    decreases ips@.len() - k,
                {
                    let ghost pre = deep_seq(data.recent_ips@);
                    proof {
                        assert(ipsd[k as int] == ips@[k as int].deep_view());
                        assert(ipsd.skip(k as int)[0] == ipsd[k as int]);
                        assert(ipsd.skip(k as int).skip(1) =~= ipsd.skip(k + 1 as int));
                    }
                    data.add_ip_to_history(clone_bytes(&ips[k]), now);
                    k = k + 1;
                }
                proof {
                    assert(ipsd.skip(ipsd.len() as int) =~= Seq::<Seq<u8>>::empty());
                }
                TickOutcome { content_changed: true, detected_ips: ips, self_stopped: false }
            },
        }
    }
}

} // verus!
