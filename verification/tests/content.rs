//! Tests of the content-digest computation and the artifact store.

use base64::Engine;
use drive_backup::backup_service::FileBackupService;
use drive_backup::hash_svc::hash_content;

#[test]
fn digest_of_known_bytes() {
    // md5("hello") is 5d41402abc4b2a76b9719d911017c592; this is its base64 text.
    let d = hash_content(&b"hello".to_vec());
    assert_eq!(d, "XUFAKrxLKna5cZ2REBfFkg==");
}

#[test]
fn digest_matches_direct_computation() {
    let data = b"some file content".to_vec();
    let expect = base64::engine::general_purpose::STANDARD.encode(md5::compute(&data).0);
    assert_eq!(hash_content(&data), expect);
    assert_ne!(hash_content(&data), String::from_utf8_lossy(&data));
}

#[test]
fn artifact_path_is_sharded() {
    let svc = FileBackupService::new("backups".to_string());
    assert_eq!(svc.backup_target_path(123456), "backups/1/123456.gz");
    assert_eq!(svc.backup_target_path(7), "backups/0/7.gz");
    assert_eq!(svc.backup_target_path(200000), "backups/2/200000.gz");
    assert_eq!(svc.delete_backup_path(123456), "backups/1/123456.gz");
}

#[test]
fn artifact_round_trips_through_decompression() {
    let svc = FileBackupService::new("root".to_string());
    let content = b"artifact body bytes".to_vec();
    let (path, gz) = svc.backup_data(42, &content).unwrap();
    assert_eq!(path, "root/0/42.gz");
    assert_ne!(gz, content);
    let mut out = Vec::new();
    let mut dec = flate2::read::GzDecoder::new(gz.as_slice());
    std::io::Read::read_to_end(&mut dec, &mut out).unwrap();
    assert_eq!(out, content);
}

#[test]
fn empty_artifact_round_trips() {
    let svc = FileBackupService::new("r".to_string());
    let content = Vec::new();
    let (_, gz) = svc.backup_data(0, &content).unwrap();
    let mut out = Vec::new();
    let mut dec = flate2::read::GzDecoder::new(gz.as_slice());
    std::io::Read::read_to_end(&mut dec, &mut out).unwrap();
    assert_eq!(out, content);
}
