pub mod info;
pub mod peer;
pub mod progress;
pub mod request;
