//! Data model: artifact descriptors, group keys, selection results, and the
//! extracted metadata document.

use vstd::prelude::*;

verus! {

/// Whether an artifact is a standalone build or a full build with an
/// explicit build configuration.
#[derive(Clone, Copy, Debug, PartialEq, Eq, Structural)]
pub enum Variant {
    Standalone,
    Full,
}

/// One published artifact, as recovered from its filename.
///
/// `build_config` is empty exactly when `variant` is `Standalone`.
#[derive(Debug)]
pub struct ArtifactDescriptor {
    pub implementation: String,
    pub version: String,
    pub release_tag: String,
    pub platform_triple: String,
    pub build_config: String,
    pub variant: Variant,
    pub download_url: String,
}

/// The four identity fields that relate a standalone descriptor to the full
/// descriptors of the same logical build.
#[derive(Debug)]
pub struct GroupKey {
    pub implementation: String,
    pub version: String,
    pub release_tag: String,
    pub platform_triple: String,
}

/// A standalone descriptor paired with the best full descriptor of its
/// group.
#[derive(Debug)]
pub struct SelectionResult {
    pub standalone: ArtifactDescriptor,
    pub best_full: ArtifactDescriptor,
}

/// The payload of interest inside a full artifact's archive: both fields are
/// optional and independently absent.
#[derive(Debug)]
pub struct ExtractedMetadata {
    pub apple_sdk_deployment_target: Option<String>,
    pub crt_features: Option<Vec<String>>,
}

/// Field-wise equality of the two keys' contents.
pub open spec fn same_key(a: GroupKey, b: GroupKey) -> bool {
    &&& a.implementation@ == b.implementation@
    &&& a.version@ == b.version@
    &&& a.release_tag@ == b.release_tag@
    &&& a.platform_triple@ == b.platform_triple@
}

/// Whether a descriptor's identity fields are the contents of the key.
pub open spec fn desc_has_key(d: ArtifactDescriptor, k: GroupKey) -> bool {
    &&& d.implementation@ == k.implementation@
    &&& d.version@ == k.version@
    &&& d.release_tag@ == k.release_tag@
    &&& d.platform_triple@ == k.platform_triple@
}

impl Clone for ArtifactDescriptor {
    fn clone(&self) -> (r: Self)
        ensures
            r == *self,
    {
        ArtifactDescriptor {
            implementation: self.implementation.clone(),
            version: self.version.clone(),
            release_tag: self.release_tag.clone(),
            platform_triple: self.platform_triple.clone(),
            build_config: self.build_config.clone(),
            variant: self.variant,
            download_url: self.download_url.clone(),
        }
    }
}

impl Clone for GroupKey {
    fn clone(&self) -> (r: Self)
        ensures
            r == *self,
    {
        GroupKey {
            implementation: self.implementation.clone(),
            version: self.version.clone(),
            release_tag: self.release_tag.clone(),
            platform_triple: self.platform_triple.clone(),
        }
    }
}

impl Clone for SelectionResult {
    fn clone(&self) -> (r: Self)
        ensures
            r == *self,
    {
        SelectionResult { standalone: self.standalone.clone(), best_full: self.best_full.clone() }
    }
}

/// The group key a descriptor belongs to.
pub fn group_key(d: &ArtifactDescriptor) -> (k: GroupKey)
    ensures
        desc_has_key(*d, k),
{
    GroupKey {
        implementation: d.implementation.clone(),
        version: d.version.clone(),
        release_tag: d.release_tag.clone(),
        platform_triple: d.platform_triple.clone(),
    }
}

/// Whether two keys hold the same four fields.
pub fn keys_equal(a: &GroupKey, b: &GroupKey) -> (r: bool)
    ensures
        r == same_key(*a, *b),
{
    a.implementation == b.implementation && a.version == b.version && a.release_tag
        == b.release_tag && a.platform_triple == b.platform_triple
}

} // verus!
