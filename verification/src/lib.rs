//! An HTTP request router: route templates with path parameters, request parsing and
//! routing, and response serialisation, with their contracts proved by Verus.
pub mod decoration;
pub mod dispatch;
pub mod method;
pub mod pattern;
pub mod request;
pub mod response;
pub mod router;
pub mod template;
pub mod text;

pub use decoration::Test;
pub use dispatch::{Request, Resolution};
pub use method::{connect, delete, get, head, option, patch, post, put, trace, ERouterMethod};
pub use response::{response_to_bytes, try_response_to_bytes, HttpResponse, HttpVersion};
pub use router::{Route, RouteError, Router};
pub use template::extract_path_parameter;
