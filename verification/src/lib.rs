//! The combined timeline of several devices.
//!
//! Every device records what it shows. This library turns the recorded events of all of them into
//! one day: a list of segments that do not overlap, each with the one activity that counts. Where
//! two devices were in use at once the owner is asked, and the answers of every device are merged
//! so that all of them arrive at the same day.
//!
//! The steps, each a module of its own:
//!
//! - [`normalise`]: resolve the device of every event and take idle time out;
//! - [`segment`]: cut the timeline wherever any activity starts or ends;
//! - [`exclude`]: take out what never counts;
//! - [`classify`]: tell settled segments from contended ones;
//! - [`apply`]: apply the owner's [`decision`]s;
//! - [`attribute`]: pick what counts where no decision has;
//! - [`coalesce`] and [`smooth`]: merge and round, for drawing;
//! - [`question`]: what is left to ask.
//!
//! [`pipeline`] runs the first six, [`timeline`] all but the last, beside the [`tracks`] of each
//! device. Around them stand what callers ask for, [`requests`], and what devices share through a
//! folder: [`settings`], [`records`], [`shared_store`] and [`shared_pass`], and the events
//! themselves in [`sync`], [`remotes`] and [`sync_setup`].
//!
//! What all of them keep is stated in the modules whose names end in `laws`: each of their public
//! proof functions says of every input what comes of it.
//!
//! Nothing here reads a file, a clock or a network.

pub mod answer_laws;
pub mod apply;
pub mod attribute;
pub mod block_laws;
pub mod classify;
pub mod coalesce;
pub mod day_laws;
pub mod decision;
pub mod decision_laws;
pub mod determinism;
pub mod exclude;
pub mod folder_laws;
pub mod json;
pub mod list;
pub mod merge_laws;
pub mod model;
pub mod normalise;
pub mod order;
pub mod pattern;
pub mod pattern_laws;
pub mod pipeline;
pub mod question;
pub mod question_laws;
pub mod record_laws;
pub mod records;
pub mod remotes;
pub mod report;
pub mod request_laws;
pub mod requests;
pub mod rounding_laws;
pub mod segment;
pub mod setting_laws;
pub mod settings;
pub mod shared_pass;
pub mod shared_store;
pub mod smooth;
pub mod smooth_laws;
pub mod sync;
pub mod sync_laws;
pub mod sync_setup;
pub mod text;
pub mod text_laws;
pub mod textmap;
pub mod time;
pub mod timeline;
pub mod timeline_laws;
pub mod track_laws;
pub mod tracks;

pub use coalesce::{coalesce, jitter_gap, JITTER_GAP_MS};
pub use decision::{merge_decisions, parse_line, parse_records, Decision, SharedRecord};
pub use exclude::NotCountedRule;
pub use model::{
    activity_label, ActiveSlice, BucketEvents, Data, Event, ForegroundShare, PipelineInput,
    Segment, SegmentState, EVENT_ORIGIN_KEY,
};
pub use normalise::{resolve_bucket_device, resolve_device, synced_from_hostname};
pub use pipeline::{compute_segments, default_min_contention, DEFAULT_MIN_CONTENTION_SECS};
pub use question::{
    questions, Competitor, Question, QuestionOptions, DEFAULT_QUESTION_GAP_SECS,
};
pub use settings::{
    effective_settings, is_shared_setting_key, parse_settings, plan_settings_sync,
    setting_to_json_line, Setting, SettingsPlan,
};
pub use smooth::{smooth, SmoothOptions, DEFAULT_SLIVER_SECS, NOISE_FLOOR_SECS};
pub use textmap::TextMap;
pub use time::{Duration, Instant};
