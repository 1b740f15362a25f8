use rsync_core::checksum::StrongChecksum;
use rsync_core::driver::{LocalTransport, SyncAction};
use rsync_core::generator::BlockChecksum;
use rsync_core::file_info::{FileInfo, FileType};
use rsync_core::generator::Generator;
use rsync_core::options::{ChecksumAlgorithm, Options};
use rsync_core::receiver::Receiver;
use rsync_core::sender::Sender;

fn file_entry(path: &str, size: u64, mtime: i64) -> (String, FileInfo) {
    (path.to_string(), FileInfo {
        path: path.to_string(),
        size,
        mtime,
        file_type: FileType::File,
        is_symlink: false,
        symlink_target: None,
    })
}

#[test]
fn test_calculate_block_size() {
    assert_eq!(Generator::calculate_block_size(0), 700);
    assert_eq!(Generator::calculate_block_size(1024), 700);

    let size_1mb = Generator::calculate_block_size(1024 * 1024);
    assert!(size_1mb >= 700 && size_1mb <= 128 * 1024);
    assert_eq!(size_1mb, 1024);

    let size_100mb = Generator::calculate_block_size(100 * 1024 * 1024);
    assert!(size_100mb >= 700 && size_100mb <= 128 * 1024);

    let size_10gb = Generator::calculate_block_size(10u64 * 1024 * 1024 * 1024);
    assert!(size_10gb >= 700 && size_10gb <= 128 * 1024);

    let size_100gb = Generator::calculate_block_size(100u64 * 1024 * 1024 * 1024);
    assert_eq!(size_100gb, 128 * 1024);
}

#[test]
fn test_build_hash_table() {
    let checksums = vec![
        BlockChecksum { index: 0, weak: 100, strong: StrongChecksum::Md5(vec![0u8; 16]) },
        BlockChecksum { index: 1, weak: 200, strong: StrongChecksum::Md5(vec![1u8; 16]) },
        BlockChecksum { index: 2, weak: 100, strong: StrongChecksum::Md5(vec![2u8; 16]) },
    ];

    let hash_table = Sender::build_hash_table(&checksums);

    assert_eq!(hash_table.len(), 2);
    assert_eq!(hash_table.get(&100).unwrap().len(), 2);
    assert_eq!(hash_table.get(&200).unwrap().len(), 1);
}

#[test]
fn test_identical_files_all_matches() {
    // reference and source identical: the delta holds only matched blocks
    let options = Options::default();
    let content = b"Hello, this is a test file for rsync algorithm!".to_vec();
    let block_size = 10;

    let generator = Generator::new(block_size, ChecksumAlgorithm::Md5);
    let checksums = generator.generate_checksums(&content);

    let sender = Sender::new(block_size, &options);
    let delta = sender.compute_delta(&content, &checksums, &options).unwrap();

    assert!(!delta.is_empty());
    for instruction in &delta {
        assert!(instruction.is_matched_block());
    }
}

#[test]
fn test_middle_mutation_exact_delta() {
    // one changed middle block becomes one literal between two matches
    let options = Options::default();
    let reference = b"AAAAAABBBBBBCCCCCC".to_vec();
    let source = b"AAAAAADDDDDDCCCCCC".to_vec();
    let block_size = 6;

    let generator = Generator::new(block_size, ChecksumAlgorithm::Md5);
    let checksums = generator.generate_checksums(&reference);

    let sender = Sender::new(block_size, &options);
    let delta = sender.compute_delta(&source, &checksums, &options).unwrap();

    assert_eq!(delta.len(), 3);
    assert_eq!(delta[0], rsync_core::delta::DeltaInstruction::matched_block(0));
    assert_eq!(delta[1],
        rsync_core::delta::DeltaInstruction::literal_data(b"DDDDDD".to_vec()));
    assert_eq!(delta[2], rsync_core::delta::DeltaInstruction::matched_block(2));

    let receiver = Receiver::new(block_size, &options);
    let rebuilt = receiver.reconstruct(Some(&reference), &delta).unwrap();
    assert_eq!(rebuilt, source);
}

#[test]
fn test_disjoint_files_single_literal() {
    // nothing matches: one literal instruction carrying the whole source
    let options = Options::default();
    let reference = b"AAAAAAAAAA".to_vec();
    let source = b"BBBBBBBBBB".to_vec();
    let block_size = 10;

    let generator = Generator::new(block_size, ChecksumAlgorithm::Md5);
    let checksums = generator.generate_checksums(&reference);

    let sender = Sender::new(block_size, &options);
    let delta = sender.compute_delta(&source, &checksums, &options).unwrap();

    assert_eq!(delta.len(), 1);
    assert_eq!(delta[0],
        rsync_core::delta::DeltaInstruction::literal_data(b"BBBBBBBBBB".to_vec()));

    let receiver = Receiver::new(block_size, &options);
    let rebuilt = receiver.reconstruct(Some(&reference), &delta).unwrap();
    assert_eq!(rebuilt, source);
}

#[test]
fn test_empty_source_empty_delta() {
    // an empty source yields an empty delta and a zero-byte reconstruction
    let options = Options::default();
    let reference = b"some reference bytes".to_vec();
    let source: Vec<u8> = Vec::new();
    let block_size = 4;

    let generator = Generator::new(block_size, ChecksumAlgorithm::Md5);
    let checksums = generator.generate_checksums(&reference);

    let sender = Sender::new(block_size, &options);
    let delta = sender.compute_delta(&source, &checksums, &options).unwrap();
    assert!(delta.is_empty());

    let receiver = Receiver::new(block_size, &options);
    let rebuilt = receiver.reconstruct(Some(&reference), &delta).unwrap();
    assert!(rebuilt.is_empty());
}

#[test]
fn test_round_trip_through_pipeline() {
    // the full signature/delta/reconstruct pipeline reproduces the source
    let options = Options::default();
    let transport = LocalTransport::new(options);

    let mut reference = Vec::new();
    let mut source = Vec::new();
    for i in 0..100u32 {
        reference.extend_from_slice(format!("Line {} of base file\n", i).as_bytes());
    }
    source.extend_from_slice(&reference);
    source.splice(50..60, b"MODIFIED".iter().cloned());

    let rebuilt = transport.sync_file_contents(&source, Some(&reference)).unwrap();
    assert_eq!(rebuilt, source);
}

#[test]
fn test_round_trip_whole_file() {
    let mut options = Options::default();
    options.whole_file = true;
    let transport = LocalTransport::new(options);
    let source = b"whole file copy".to_vec();
    let dest = b"old bytes".to_vec();
    let rebuilt = transport.sync_file_contents(&source, Some(&dest)).unwrap();
    assert_eq!(rebuilt, source);
}

#[test]
fn test_round_trip_compressed_literals() {
    let mut options = Options::default();
    options.compress = true;
    let transport = LocalTransport::new(options);
    let reference = b"AAAAAABBBBBBCCCCCC".to_vec();
    let source = b"AAAAAADDDDDDCCCCCC".to_vec();
    let rebuilt = transport.sync_file_contents(&source, Some(&reference)).unwrap();
    assert_eq!(rebuilt, source);
}

#[test]
fn test_reconstruct_without_reference_fails_on_match() {
    let options = Options::default();
    let receiver = Receiver::new(4, &options);
    let delta = vec![rsync_core::delta::DeltaInstruction::matched_block(0)];
    assert!(receiver.reconstruct(None, &delta).is_err());
}

#[test]
fn test_delete_after_semantics() {
    // one extra destination entry is deleted; the rest of the tree stands
    let mut options = Options::default();
    options.delete = true;
    let transport = LocalTransport::new(options);

    let source = vec![file_entry("f1.txt", 2, 100)];
    let dest = vec![file_entry("f1.txt", 2, 100), file_entry("f2.txt", 5, 90)];

    let (actions, stats) = transport.plan_sync(&source, &dest, &Vec::new());
    assert_eq!(stats.deleted_files, 1);
    assert_eq!(stats.transferred_files, 0);

    // apply the plan to the destination tree
    let mut result: Vec<(String, FileInfo)> = dest.clone();
    for action in &actions {
        match action {
            SyncAction::Delete { path, .. } => {
                result.retain(|e| &e.0 != path);
            }
            SyncAction::Transfer { .. } => {}
            SyncAction::CreateDir { .. } => {}
        }
    }
    let result_paths: Vec<&String> = result.iter().map(|e| &e.0).collect();
    let source_paths: Vec<&String> = source.iter().map(|e| &e.0).collect();
    assert_eq!(result_paths, source_paths);
}

#[test]
fn test_delete_dry_run_counts() {
    // a dry run still counts the deletion it would perform
    let mut options = Options::default();
    options.delete = true;
    options.dry_run = true;
    let transport = LocalTransport::new(options);

    let source = vec![file_entry("f1.txt", 2, 100)];
    let dest = vec![file_entry("f1.txt", 2, 100), file_entry("f2.txt", 5, 90)];

    let (_actions, stats) = transport.plan_sync(&source, &dest, &Vec::new());
    assert_eq!(stats.deleted_files, 1);
}

#[test]
fn test_second_run_transfers_nothing() {
    // size-only comparison: running the plan again over the produced tree
    // moves no files
    let mut options = Options::default();
    options.size_only = true;
    options.delete = true;
    let transport = LocalTransport::new(options);

    let source = vec![file_entry("a.txt", 3, 5), file_entry("b.txt", 9, 6)];
    let dest = vec![file_entry("b.txt", 1, 2), file_entry("c.txt", 4, 3)];

    let (actions, stats1) = transport.plan_sync(&source, &dest, &Vec::new());
    assert_eq!(stats1.transferred_files, 2);
    assert_eq!(stats1.deleted_files, 1);

    // model the execution: delete extras, then write transfers
    let mut result: Vec<(String, FileInfo)> = dest.clone();
    for action in &actions {
        match action {
            SyncAction::Delete { path, .. } => result.retain(|e| &e.0 != path),
            SyncAction::Transfer { path, size, .. } => {
                result.retain(|e| &e.0 != path);
                result.push(file_entry(path, *size, 999));
            }
            SyncAction::CreateDir { .. } => {}
        }
    }

    let (_, stats2) = transport.plan_sync(&source, &result, &Vec::new());
    assert_eq!(stats2.transferred_files, 0);
    assert_eq!(stats2.deleted_files, 0);
    assert_eq!(stats2.unchanged_files, 2);
}

#[test]
fn test_should_sync_decision_table() {
    let mut options = Options::default();
    options.update = true;
    let transport = LocalTransport::new(options);
    let source = file_entry("x", 10, 100).1;
    let newer_dest = file_entry("x", 11, 200).1;
    // a newer destination is kept under --update
    assert!(!transport.should_sync(&source, Some(&newer_dest), None).unwrap());
    // a missing destination always transfers
    assert!(transport.should_sync(&source, None, None).unwrap());

    let transport_default = LocalTransport::new(Options::default());
    let same = file_entry("x", 10, 100).1;
    assert!(!transport_default.should_sync(&source, Some(&same), None).unwrap());
    let resized = file_entry("x", 12, 100).1;
    assert!(transport_default.should_sync(&source, Some(&resized), None).unwrap());
}

#[test]
fn test_backup_path_forms() {
    let mut options = Options::default();
    options.backup = true;
    let transport = LocalTransport::new(options.clone());
    assert_eq!(transport.backup_path("notes.txt"), "notes.txt~");

    options.backup_dir = Some("backups".to_string());
    let transport2 = LocalTransport::new(options);
    assert_eq!(transport2.backup_path("notes.txt"), "backups/notes.txt");
}

#[test]
fn test_atomic_placement_on_failure() {
    // a failing reconstruction leaves the destination bytes untouched
    let options = Options::default();
    let receiver = Receiver::new(4, &options);
    let dest = b"previous contents".to_vec();
    let delta = vec![rsync_core::delta::DeltaInstruction::matched_block(1)];
    let outcome = receiver.reconstruct(None, &delta);
    assert!(outcome.is_err());
    let placed = rsync_core::receiver::place_atomic(&dest, &outcome);
    assert_eq!(placed, dest);

    let good = receiver.reconstruct(Some(&dest), &delta);
    let placed2 = rsync_core::receiver::place_atomic(&dest, &good);
    assert_eq!(placed2, good.unwrap());
}
