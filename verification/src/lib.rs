//! Screenshot text recognition, annotation and long-shot capture.

pub mod annotate;
pub mod api;
pub mod base64;
pub mod big;
pub mod binary64;
pub mod capture;
pub mod clahe;
pub mod clean;
pub mod cli;
pub mod config;
pub mod fusion;
pub mod geom;
pub mod gray;
pub mod highlight;
pub mod imaging;
pub mod json;
pub mod llm;
pub mod message;
pub mod model_picker;
pub mod morph;
pub mod niri;
pub mod number;
pub mod ocr;
pub mod otsu;
pub mod own_window;
pub mod panel;
pub mod pin;
pub mod placement;
pub mod prep;
pub mod preview;
pub mod readout;
pub mod result;
pub mod screencopy;
pub mod selector;
pub mod session;
pub mod single;
pub mod text;
pub mod tone;
pub mod tray;
pub mod tsv;
pub mod vision;
