//! In-memory coordination records: a sequenced engagement repository whose
//! keys stay contiguous, set-like name repositories, a translation task
//! repository with monotonic ids, and the snapshot/restore logic that makes
//! them durable.

pub mod engagements;
pub mod error;
pub mod names;
pub mod outside;
pub mod record;
pub mod sequence;
pub mod snapshot;
pub mod text;
pub mod translations;

pub use engagements::EngagementRepo;
pub use error::RepoError;
pub use names::NameSet;
pub use record::{
    parse_key, Engagement, EngagementQuery, FlyerStatus, HostStatus, Language, NewEngagement,
    Status, ValidationError,
};
pub use snapshot::{latest_valid, restore_all, RestoreReport, Snapshot};
pub use translations::{get_stage, sort_by_due, Query, Stage, Translation, TranslationRepo};
