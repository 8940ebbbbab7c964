//! The cloud-sync service's decisions: the cloud-home settings a connect or a
//! disconnect leaves behind, whether a launch resumes sync, and the status and
//! outbox figures the settings screen shows. The sync loop itself, the keyring
//! and the S3 probe are the host's.

use vstd::prelude::*;

use crate::node::{blank_to_none, normalized, opt_view};

verus! {

/// The fields needed to connect an S3-compatible cloud home. `endpoint` and
/// `key_prefix` are optional (AWS S3 needs no endpoint; the prefix shares a
/// bucket across libraries).
pub struct S3ConfigData {
    pub bucket: String,
    pub region: String,
    pub endpoint: Option<String>,
    pub key_prefix: Option<String>,
    pub access_key: String,
    pub secret_key: String,
}

/// Whether sync is set up and whether the loop is actually running.
#[derive(Debug, Clone, Copy, PartialEq, Eq)]
pub struct SyncStatusInfo {
    /// A provider is selected with its settings and credentials present.
    pub configured: bool,
    /// The background sync loop is running and draining.
    pub ready: bool,
}

/// Counts of pending cloud-outbox work, for the settings screen.
#[derive(Debug, Clone, Copy, PartialEq, Eq)]
pub struct OutboxSnapshot {
    pub pending_uploads: u64,
    pub pending_deletes: u64,
}

/// The cloud providers a library can sync through.
#[derive(Debug, Clone, Copy, PartialEq, Eq)]
pub enum CloudProvider {
    S3,
}

/// A library's cloud-home settings (the credentials live in the keyring).
#[derive(Debug, Clone, PartialEq, Eq)]
pub struct CloudHome {
    pub provider: Option<CloudProvider>,
    pub s3_bucket: Option<String>,
    pub s3_region: Option<String>,
    pub s3_endpoint: Option<String>,
    pub s3_key_prefix: Option<String>,
}

impl CloudHome {
    /// No provider and no settings: a local-only library.
    pub fn local_only() -> (r: CloudHome)
        ensures
            r.provider is None,
            r.s3_bucket is None,
            r.s3_region is None,
            r.s3_endpoint is None,
            r.s3_key_prefix is None,
    {
        CloudHome { provider: None, s3_bucket: None, s3_region: None, s3_endpoint: None, s3_key_prefix: None }
    }

    /// The cloud home a successful S3 connect records: the whole home filled
    /// as a unit, with a blank (empty or whitespace-only) endpoint or key
    /// prefix stored as absent and a present one trimmed, as node attributes
    /// are.
    pub fn connected_s3(data: &S3ConfigData) -> (r: CloudHome)
        ensures
            r.provider == Some(CloudProvider::S3),
            r.s3_bucket == Some(data.bucket),
            r.s3_region == Some(data.region),
            opt_view(r.s3_endpoint) == normalized(data.endpoint),
            opt_view(r.s3_key_prefix) == normalized(data.key_prefix),
    {
        let endpoint = match &data.endpoint {
            Some(e) => Some(e.clone()),
            None => None,
        };
        let prefix = match &data.key_prefix {
            Some(p) => Some(p.clone()),
            None => None,
        };
        CloudHome {
            provider: Some(CloudProvider::S3),
            s3_bucket: Some(data.bucket.clone()),
            s3_region: Some(data.region.clone()),
            s3_endpoint: blank_to_none(endpoint),
            s3_key_prefix: blank_to_none(prefix),
        }
    }
}

/// The encryption key to unlock at launch, or `None` to stay local: a library
/// that never stored a key needs none, and a key marked stored but missing
/// from this device's keyring is left for the user to reconnect (minting a new
/// one would orphan the cloud data).
pub fn key_to_unlock(key_stored: bool, keyring_key: Option<String>) -> (r: Option<String>)
    ensures
        !key_stored ==> r is None,
        key_stored ==> r == keyring_key,
{
    if !key_stored {
        None
    } else {
        keyring_key
    }
}

/// Whether a launch resumes sync: only with an unlocked key and a configured
/// provider.
pub fn resumes_sync(key_unlocked: bool, provider_configured: bool) -> (r: bool)
    ensures
        r == (key_unlocked && provider_configured),
{
    key_unlocked && provider_configured
}

impl SyncStatusInfo {
    /// The status from whether a provider is configured and from the sync
    /// manager, if one is built: ready only when a built manager's loop runs.
    pub fn new(configured: bool, manager_ready: Option<bool>) -> (r: SyncStatusInfo)
        ensures
            r.configured == configured,
            r.ready == (manager_ready == Some(true)),
    {
        let ready = match manager_ready {
            Some(b) => b,
            None => false,
        };
        SyncStatusInfo { configured, ready }
    }
}

impl OutboxSnapshot {
    /// The snapshot of `uploads` pending uploads and `deletes` pending deletes.
    pub fn from_counts(uploads: usize, deletes: usize) -> (r: OutboxSnapshot)
        ensures
            r.pending_uploads == uploads,
            r.pending_deletes == deletes,
    {
        OutboxSnapshot { pending_uploads: uploads as u64, pending_deletes: deletes as u64 }
    }
}

} // verus!
