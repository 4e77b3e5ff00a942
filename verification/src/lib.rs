//! Verified core of a Telegram-backed photo and video backup service:
//! the MP4 box scanner, the metadata summary, the download buffer, the
//! bridge-file parsing, the upload queue and its upload run.
pub mod mp4_boxes;
pub mod mp4_metadata;
pub mod download;
pub mod text;
pub mod json;
pub mod bridge;
pub mod preferences;
pub mod backup_queue;
pub mod tracking;
pub mod upload_run;
pub mod upload_service;
