//! Middleware building blocks that strip filesystem path-traversal
//! sequences (`..`, `.`, and their percent-encoded forms) out of URL paths
//! before a request reaches the service that resolves those paths.

use vstd::prelude::*;

pub mod decode;
pub mod normalize;
pub mod sanitize;
pub mod segments;

pub use crate::sanitize::sanitize_path;
pub use crate::sanitize::UriPathQuery;

verus! {

/// Middleware value that owns a downstream service; every request path is
/// sanitized before the downstream service sees it.
pub struct SanitizePath<S> {
    inner: S,
}

impl<S> SanitizePath<S> {
    /// The wrapped downstream service.
    pub closed spec fn inner_service(self) -> S {
        self.inner
    }

    /// Sanitize all paths for the given service.
    ///
    /// This will make all paths on the URL safe for the service to consume.
    pub fn sanitize_paths(inner: S) -> (svc: Self)
        ensures
            svc.inner_service() == inner,
    {
        Self { inner }
    }
}

/// Layer that wraps a service in [`SanitizePath`].
pub struct SanitizePathLayer;

impl SanitizePathLayer {
    /// Wrap `inner` so that its request paths are sanitized.
    pub fn layer<S>(&self, inner: S) -> (svc: SanitizePath<S>)
        ensures
            svc.inner_service() == inner,
    {
        SanitizePath::sanitize_paths(inner)
    }
}

} // verus!
