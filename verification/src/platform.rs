use vstd::prelude::*;

verus! {

/// The platform-specific application-discovery surface.  One concrete
/// implementation exists per supported operating system; a platform
/// without a native adapter uses the generic one, whose every method
/// reports nothing rather than failing, so callers never branch on the
/// platform beyond the initial selection.
pub trait PlatformSpecific {
    /// Applications able to open the given MIME type.
    fn find_apps_for_mime_type(&self, mime_type: &str) -> Vec<String>;

    /// Applications able to open files carrying the given extension.
    fn find_apps_for_extension(&self, extension: &str) -> Vec<String>;

    /// Installed applications, grouped under a category key.
    fn scan_system_applications(&self) -> Result<Vec<(String, Vec<String>)>, String>;
}

/// The fallback for platforms without a native adapter: every query
/// reports an empty result.
pub struct GenericPlatform;

impl GenericPlatform {
    pub fn new() -> (p: GenericPlatform) {
        GenericPlatform
    }
}

impl PlatformSpecific for GenericPlatform {
    fn find_apps_for_mime_type(&self, _mime_type: &str) -> (r: Vec<String>)
        ensures
            r@.len() == 0,
    {
        Vec::new()
    }

    fn find_apps_for_extension(&self, _extension: &str) -> (r: Vec<String>)
        ensures
            r@.len() == 0,
    {
        Vec::new()
    }

    fn scan_system_applications(&self) -> (r: Result<Vec<(String, Vec<String>)>, String>)
        ensures
            r is Ok,
            r matches Ok(v) ==> v@.len() == 0,
    {
        Ok(Vec::new())
    }
}

/// Selects the platform adapter for this build.  Without a native
/// registry adapter the generic variant is chosen; a platform-specific
/// adapter implements the same trait outside the verified library.
pub fn new() -> (p: GenericPlatform) {
    GenericPlatform::new()
}

} // verus!
