//! Serving a single-page application's build: locating the build on disk,
//! deciding for each request path whether it names an asset file or an
//! application route, and building the entry page, including its
//! soft-failure page when the entry document cannot be read.
pub mod locator;
pub mod page;
pub mod percent;
pub mod route;
