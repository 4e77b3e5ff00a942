use telegram_backup::backup_queue::{BackupJob, BackupQueueState, BackupStatus};
use telegram_backup::preferences::{preferences_or_default, BackupPreferences};
use telegram_backup::tracking::{
    uploaded_from_hits, uploaded_media_bindings, uploaded_media_lookups, LookupColumn, SqlValue, UploadedMedia,
};
use telegram_backup::upload_run::{PendingUpload, UploadAction, UploadRun};
use telegram_backup::upload_service::{start_foreground_service, stop_foreground_service};

fn job(id: &str, status: BackupStatus) -> BackupJob {
    BackupJob {
        id: id.to_string(),
        path: format!("/sdcard/{}", id),
        uri: None,
        media_store_id: Some(id.to_string()),
        status,
    }
}

#[test]
fn default_preferences() {
    let p = BackupPreferences::default();
    assert!(!p.enabled);
    assert_eq!(p.target_chat_id, None);
    assert_eq!(p.target_folder_id, None);
    assert_eq!(p.network_type, "wifi");
    assert!(p.sources_photos);
    assert!(!p.sources_videos && !p.sources_screenshots && !p.sources_downloads && !p.sources_whatsapp);
}

#[test]
fn stored_preferences_win_over_defaults() {
    let mut stored = BackupPreferences::default();
    stored.enabled = true;
    stored.target_folder_id = Some(99);
    stored.network_type = "cellular".to_string();
    let p = preferences_or_default(Some(stored));
    assert!(p.enabled);
    assert_eq!(p.target_folder_id, Some(99));
    assert_eq!(p.network_type, "cellular");
    let d = preferences_or_default(None);
    assert!(!d.enabled);
    assert_eq!(d.network_type, "wifi");
}

#[test]
fn queue_is_first_in_first_out() {
    let mut q = BackupQueueState::new();
    assert!(q.jobs_snapshot().is_empty());
    q.enqueue(job("a", BackupStatus::Pending));
    q.enqueue(job("b", BackupStatus::Failed("timeout".to_string())));
    q.enqueue(job("c", BackupStatus::Retry));
    let ids: Vec<String> = q.jobs_snapshot().into_iter().map(|j| j.id).collect();
    assert_eq!(ids, vec!["a", "b", "c"]);
    let snapshot = q.jobs_snapshot();
    assert!(matches!(&snapshot[1].status, BackupStatus::Failed(reason) if reason == "timeout"));
    assert_eq!(snapshot[0].media_store_id.as_deref(), Some("a"));
    assert_eq!(snapshot[2].path, "/sdcard/c");
}

#[test]
fn pause_and_resume_keep_the_jobs() {
    let mut q = BackupQueueState::new();
    assert!(!q.is_paused());
    q.enqueue(job("a", BackupStatus::Uploading));
    q.pause();
    assert!(q.is_paused());
    q.pause();
    assert!(q.is_paused());
    q.resume();
    assert!(!q.is_paused());
    assert_eq!(q.jobs_snapshot().len(), 1);
}

#[test]
fn clones_are_equal_copies() {
    let j = job("z", BackupStatus::Uploaded);
    let c = j.clone();
    assert_eq!(c.id, j.id);
    assert!(matches!(c.status, BackupStatus::Uploaded));
}

fn media(with_optionals: bool) -> UploadedMedia {
    UploadedMedia {
        id: "m1".to_string(),
        media_store_id: if with_optionals { Some("ms".to_string()) } else { None },
        uri: if with_optionals { Some("content://x".to_string()) } else { None },
        path: if with_optionals { Some("/p".to_string()) } else { None },
        size: if with_optionals { Some(10) } else { None },
        date_taken: if with_optionals { Some(20) } else { None },
        sha256: if with_optionals { Some("abcd".to_string()) } else { None },
        telegram_message_id: if with_optionals { Some(30) } else { None },
        upload_time: 40,
    }
}

fn describe(b: &telegram_backup::tracking::SqlBinding) -> (usize, String) {
    match &b.value {
        SqlValue::Text(s) => (b.index, format!("text:{}", s)),
        SqlValue::Integer(n) => (b.index, format!("int:{}", n)),
    }
}

#[test]
fn binds_every_present_field() {
    let bound: Vec<(usize, String)> = uploaded_media_bindings(media(true)).iter().map(describe).collect();
    assert_eq!(
        bound,
        vec![
            (1, "text:m1".to_string()),
            (2, "text:ms".to_string()),
            (3, "text:content://x".to_string()),
            (4, "text:/p".to_string()),
            (5, "int:10".to_string()),
            (6, "int:20".to_string()),
            (7, "text:abcd".to_string()),
            (8, "int:30".to_string()),
            (9, "int:40".to_string()),
        ]
    );
}

#[test]
fn leaves_absent_fields_unbound() {
    let bound: Vec<(usize, String)> = uploaded_media_bindings(media(false)).iter().map(describe).collect();
    assert_eq!(bound, vec![(1, "text:m1".to_string()), (9, "int:40".to_string())]);
}

#[test]
fn looks_up_by_store_id_then_hash() {
    let both = uploaded_media_lookups(&Some("ms".to_string()), &Some("h".to_string()));
    assert_eq!(both.len(), 2);
    assert_eq!(both[0].column, LookupColumn::MediaStoreId);
    assert_eq!(both[0].value, "ms");
    assert_eq!(both[1].column, LookupColumn::Sha256);
    assert_eq!(both[1].value, "h");
    let hash_only = uploaded_media_lookups(&None, &Some("h".to_string()));
    assert_eq!(hash_only.len(), 1);
    assert_eq!(hash_only[0].column, LookupColumn::Sha256);
    assert!(uploaded_media_lookups(&None, &None).is_empty());
}

fn pending(id: &str, path: &str) -> PendingUpload {
    PendingUpload { id: id.to_string(), path: path.to_string() }
}

fn show(a: &UploadAction) -> String {
    match a {
        UploadAction::MarkUploading { id } => format!("uploading {}", id),
        UploadAction::Upload { path, target_folder_id, queue_id } => {
            format!("upload {} to {:?} as {}", path, target_folder_id, queue_id)
        }
        UploadAction::MarkUploaded { id } => format!("uploaded {}", id),
        UploadAction::MarkFailed { id } => format!("failed {}", id),
        UploadAction::Finished => "finished".to_string(),
    }
}

#[test]
fn run_marks_uploads_and_settles_each_item() {
    let mut run = UploadRun::new(vec![pending("q-1", "/a"), pending("q-2", "/b")], Some(5));
    let outcomes = [false, true];
    let mut seen = Vec::new();
    let mut settled = 0;
    loop {
        let action = if run.awaits_result() {
            let ok = outcomes[settled];
            settled += 1;
            run.upload_finished(ok)
        } else {
            run.next_action()
        };
        seen.push(show(&action));
        if matches!(action, UploadAction::Finished) {
            break;
        }
    }
    assert_eq!(
        seen,
        vec![
            "uploading q-1",
            "upload /a to Some(5) as q-1",
            "failed q-1",
            "uploading q-2",
            "upload /b to Some(5) as q-2",
            "uploaded q-2",
            "finished",
        ]
    );
}

#[test]
fn empty_run_finishes_at_once() {
    let mut run = UploadRun::new(vec![], None);
    assert!(!run.awaits_result());
    assert!(matches!(run.next_action(), UploadAction::Finished));
    assert!(matches!(run.next_action(), UploadAction::Finished));
}

#[test]
fn foreground_service_calls_do_nothing() {
    start_foreground_service();
    stop_foreground_service();
}

#[test]
fn uploaded_as_soon_as_a_lookup_finds_a_row() {
    assert!(!uploaded_from_hits(&vec![]));
    assert!(!uploaded_from_hits(&vec![false, false]));
    assert!(uploaded_from_hits(&vec![true]));
    assert!(uploaded_from_hits(&vec![false, true]));
}
