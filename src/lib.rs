pub mod codec;
pub mod config;
pub mod intent;
pub mod layout;
pub mod log;
pub mod parse;
pub mod plan;
pub mod resolver;
pub mod roundtrip;
pub mod session;
pub mod storage;
pub mod text;
pub mod time;
pub mod toy;
pub mod valuetype;
pub mod version;
pub mod vocab;
