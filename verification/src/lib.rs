//! WaveCore: the document, style, security, storage and script-lexing core
//! of a small browser engine, verified with Verus.
pub mod text;
pub mod strmap;
pub mod dom;
pub mod css;
pub mod style;
pub mod html;
pub mod entities;
pub mod urls;
pub mod sandbox;
pub mod isolation;
pub mod storage;
pub mod net;
pub mod pixels;
pub mod media;
pub mod js;
