use rsync_core::buffer_optimizer::BufferOptimizer;
use rsync_core::bwlimit::BandwidthLimiter;
use rsync_core::compress::Compressor;
use rsync_core::file_info::{human_readable_size, FileInfo, FileType};
use rsync_core::itemize::ItemizeChange;
use rsync_core::options::{
    parse_checksum_algorithm, parse_compression_algorithm, ChecksumAlgorithm,
    CompressionAlgorithm, Options,
};
use rsync_core::stats::Stats;
use rsync_core::verbose::VerboseOutput;

#[test]
fn test_human_readable_size() {
    assert_eq!(human_readable_size(0), "0 B");
    assert_eq!(human_readable_size(500), "500 B");
    assert_eq!(human_readable_size(1024), "1.00 KB");
    assert_eq!(human_readable_size(1536), "1.50 KB");
    assert_eq!(human_readable_size(1048576), "1.00 MB");
    assert_eq!(human_readable_size(1073741824), "1.00 GB");
}

#[test]
fn test_file_info_is_methods() {
    let file_info = FileInfo {
        path: "test.txt".to_string(),
        size: 100,
        mtime: 0,
        file_type: FileType::File,
        is_symlink: false,
        symlink_target: None,
    };

    assert!(file_info.is_file());
    assert!(!file_info.is_directory());

    let dir_info = FileInfo {
        path: "testdir".to_string(),
        size: 0,
        mtime: 0,
        file_type: FileType::Directory,
        is_symlink: false,
        symlink_target: None,
    };

    assert!(dir_info.is_directory());
    assert!(!dir_info.is_file());
}

#[test]
fn test_relative_path_strips_base() {
    let info = FileInfo {
        path: "base/dir/file.txt".to_string(),
        size: 1,
        mtime: 0,
        file_type: FileType::File,
        is_symlink: false,
        symlink_target: None,
    };
    assert_eq!(info.relative_path("base").unwrap(), "dir/file.txt");
    assert_eq!(info.relative_path("base/").unwrap(), "dir/file.txt");
    assert_eq!(info.relative_path("base/dir/file.txt").unwrap(), "");
    assert!(info.relative_path("other").is_none());
}

#[test]
fn test_buffer_size_for_small_file() {
    let optimizer = BufferOptimizer::new();

    let size = optimizer.optimal_buffer_size(1024);
    assert_eq!(size, 4 * 1024);
}

#[test]
fn test_buffer_size_for_medium_file() {
    let optimizer = BufferOptimizer::new();

    let size = optimizer.optimal_buffer_size(100 * 1024);
    assert_eq!(size, 64 * 1024);
}

#[test]
fn test_buffer_size_for_large_file() {
    let optimizer = BufferOptimizer::new();

    let size = optimizer.optimal_buffer_size(5 * 1024 * 1024);
    assert_eq!(size, 256 * 1024);

    let size = optimizer.optimal_buffer_size(200 * 1024 * 1024);
    assert_eq!(size, 1024 * 1024);
}

#[test]
fn test_cluster_alignment() {
    let optimizer = BufferOptimizer::new();

    let aligned = optimizer.align_to_cluster(10_000, 4096);
    assert_eq!(aligned, 12_288);

    let aligned = optimizer.align_to_cluster(8192, 4096);
    assert_eq!(aligned, 8192);
}

#[test]
fn test_new_file_format() {
    let change = ItemizeChange::new_file("test/file.txt");
    let formatted = change.format();

    assert!(formatted.starts_with(">f"));
    assert!(formatted.contains("test/file.txt"));
}

#[test]
fn test_new_directory_format() {
    let change = ItemizeChange::new_directory("test/dir");
    let formatted = change.format();

    assert!(formatted.starts_with("cd"));
    assert!(formatted.contains("test/dir"));
}

#[test]
fn test_delete_format() {
    let change = ItemizeChange::delete_file("test/old.txt");
    let formatted = change.format();

    assert!(formatted.starts_with("*f"));
    assert!(formatted.contains("test/old.txt"));
}

#[test]
fn test_update_file_format_flags() {
    let change = ItemizeChange::update_file("x", true, false);
    assert_eq!(change.format(), ">fcs.... x");
}

#[test]
fn test_verbose_levels() {
    let v0 = VerboseOutput::new(0, false);
    let v1 = VerboseOutput::new(1, false);
    let v2 = VerboseOutput::new(2, false);
    let v3 = VerboseOutput::new(3, false);

    assert_eq!(v0.level(), 0);
    assert_eq!(v1.level(), 1);
    assert_eq!(v2.level(), 2);
    assert_eq!(v3.level(), 3);
}

#[test]
fn test_quiet_mode() {
    let quiet = VerboseOutput::new(1, true);
    assert!(quiet.is_quiet());

    let not_quiet = VerboseOutput::new(1, false);
    assert!(!not_quiet.is_quiet());
}

#[test]
fn test_default() {
    let default = VerboseOutput::default();
    assert_eq!(default.level(), 0);
    assert!(!default.is_quiet());
}

#[test]
fn test_options_defaults() {
    let options = Options::default();
    assert!(!options.recursive);
    assert!(!options.delete);
    assert_eq!(options.suffix, "~");
    assert_eq!(options.port, Some(873));
}

#[test]
fn test_apply_archive_mode() {
    let mut options = Options::default();
    options.archive = true;
    options.apply_archive_mode();
    assert!(options.recursive);
    assert!(options.links);
}

#[test]
fn test_warn_unsupported_on_windows() {
    let options = Options::default();
    let line = options.warn_unsupported_on_windows("owner");
    assert_eq!(
        line,
        "Warning: Option --owner (-o) is not supported on Windows and will be ignored.",
    );
}

#[test]
fn test_parse_algorithm_names() {
    assert_eq!(parse_checksum_algorithm("md4").unwrap(), ChecksumAlgorithm::Md4);
    assert_eq!(parse_checksum_algorithm("blake2").unwrap(), ChecksumAlgorithm::Blake2);
    assert!(parse_checksum_algorithm("sha512").is_err());
    assert_eq!(parse_compression_algorithm("lz4").unwrap(), CompressionAlgorithm::Lz4);
    assert!(parse_compression_algorithm("brotli").is_err());
}

#[test]
fn test_stats_start_at_zero() {
    let stats = Stats::new();
    assert_eq!(stats.total_files, 0);
    assert_eq!(stats.transferred_bytes, 0);
}

#[test]
fn test_bandwidth_limiter_delay() {
    let mut limiter = BandwidthLimiter::new(1000);
    // 500 bytes at 1000 B/s should take 500 ms; after 100 ms the pause is
    // the 400 ms difference
    let delay = limiter.limit(500, 100);
    assert_eq!(delay, 400);
    // already slower than the cap: no pause
    let delay2 = limiter.limit(100, 2000);
    assert_eq!(delay2, 0);
}

#[test]
fn test_compressor_round_trip_each_algorithm() {
    let data = b"compressible compressible compressible compressible".to_vec();
    for alg in [
        CompressionAlgorithm::Zlib,
        CompressionAlgorithm::Lz4,
        CompressionAlgorithm::Zstd,
    ] {
        let compressor = Compressor::new(alg);
        let packed = compressor.compress(&data).unwrap();
        assert_ne!(packed, data);
        let unpacked = compressor.decompress(&packed).unwrap();
        assert_eq!(unpacked, data);
    }
}

#[test]
fn test_decompress_garbage_fails() {
    // a frame without the zstd magic number cannot decode
    let compressor = Compressor::new(CompressionAlgorithm::Zstd);
    assert!(compressor.decompress(&[0xDE, 0xAD, 0xBE, 0xEF, 0x01]).is_err());
}
