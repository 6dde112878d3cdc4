use rsync::checksum::adler32;
use rsync::client::{get_suffix, Client, Common, DiffError, FileInfo, Receiver, Sender, Verbosity};
use rsync::file::{merge_maps, FileChunkIterator};

fn pattern(n: usize) -> Vec<u8> {
    (0..n).map(|i| (i % 256) as u8).collect()
}

fn diff(src: &[u8], dst: Option<&[u8]>, block_size: usize) -> Vec<Common> {
    let client = Client::new("a".to_string(), "b".to_string(), block_size);
    let src_data = src.to_vec();
    match dst {
        Some(d) => {
            let d = d.to_vec();
            client.run(&src_data, Some(&d)).common
        }
        None => client.run(&src_data, None).common,
    }
}

#[test]
fn index_has_one_entry_per_distinct_block() {
    let data = pattern(256);
    let sender = Sender::new("src", Verbosity::OFF, 64);
    let info = sender.get_file_chunks("src", &data);
    assert_eq!(info.data.len(), 4);
    assert_eq!(info.data.block_size(), 64);
    assert_eq!(info.path_suffix, "");
}

#[test]
fn empty_source_yields_empty_index_and_no_matches() {
    let sender = Sender::new("src", Verbosity::OFF, 64);
    let info = sender.get_file_chunks("src", &vec![]);
    assert_eq!(info.data.len(), 0);
    let commons = diff(&[], Some(&pattern(100)), 64);
    assert!(commons.is_empty());
}

#[test]
fn identity_whole_blocks() {
    // 256 bytes of pairwise-distinct blocks against an identical copy
    let data = pattern(256);
    let commons = diff(&data, Some(&data), 64);
    assert_eq!(commons.len(), 4);
    for (k, c) in commons.iter().enumerate() {
        assert_eq!(c.src_begin, k * 64);
        assert_eq!(c.dst_begin, k * 64);
        assert_eq!(c.size, 64);
    }
}

#[test]
fn identity_with_short_final_block() {
    let data = pattern(150);
    let commons = diff(&data, Some(&data), 64);
    assert_eq!(
        commons,
        vec![
            Common { src_begin: 0, dst_begin: 0, size: 64 },
            Common { src_begin: 64, dst_begin: 64, size: 64 },
            Common { src_begin: 128, dst_begin: 128, size: 22 },
        ]
    );
}

#[test]
fn missing_destination_yields_empty_common_list() {
    let commons = diff(&pattern(256), None, 64);
    assert!(commons.is_empty());
}

#[test]
fn flipped_byte_loses_only_its_block() {
    let data = pattern(256);
    let mut dst = data.clone();
    dst[100] ^= 0xFF;
    let commons = diff(&data, Some(&dst), 64);
    assert_eq!(
        commons,
        vec![
            Common { src_begin: 0, dst_begin: 0, size: 64 },
            Common { src_begin: 128, dst_begin: 128, size: 64 },
            Common { src_begin: 192, dst_begin: 192, size: 64 },
        ]
    );
}

#[test]
fn appended_content_leaves_tail_unmatched() {
    let src = pattern(128);
    let mut dst = src.clone();
    dst.extend((0..40).map(|_| 7u8));
    let commons = diff(&src, Some(&dst), 64);
    assert_eq!(
        commons,
        vec![
            Common { src_begin: 0, dst_begin: 0, size: 64 },
            Common { src_begin: 64, dst_begin: 64, size: 64 },
        ]
    );
    // every matched byte lies inside the copied prefix
    for c in &commons {
        assert!(c.dst_begin + c.size <= 128);
    }
}

#[test]
fn prepended_content_is_recovered_by_resynchronization() {
    let src = pattern(128);
    let mut dst = vec![9u8, 9, 9, 9, 9];
    dst.extend_from_slice(&src);
    let commons = diff(&src, Some(&dst), 64);
    assert_eq!(
        commons,
        vec![
            Common { src_begin: 0, dst_begin: 5, size: 64 },
            Common { src_begin: 64, dst_begin: 69, size: 64 },
        ]
    );
}

#[test]
fn weak_collision_is_rejected_by_strong_checksum() {
    // the two blocks share their weak checksum but differ in content
    let src = vec![1u8, 0, 1];
    let dst = vec![0u8, 2, 0];
    assert_eq!(adler32(&src), adler32(&dst));
    let commons = diff(&src, Some(&dst), 3);
    assert!(commons.is_empty());
}

#[test]
fn no_two_regions_overlap() {
    // a destination stitched from repeated and shifted source pieces
    let src = pattern(192);
    let mut dst = Vec::new();
    dst.extend_from_slice(&src[64..128]);
    dst.extend((0..10).map(|_| 3u8));
    dst.extend_from_slice(&src);
    let commons = diff(&src, Some(&dst), 64);
    assert!(!commons.is_empty());
    for w in commons.windows(2) {
        assert!(w[0].dst_begin + w[0].size <= w[1].dst_begin);
    }
}

#[test]
fn block_size_mismatch_is_rejected() {
    let data = pattern(256);
    let sender = Sender::new("src", Verbosity::OFF, 64);
    let info = sender.get_file_chunks("src", &data);
    let mut seed = Receiver { path: String::new(), verbosity: Verbosity::OFF };
    let receiver = seed.new("dst", Verbosity::OFF);
    let result = receiver.compare("", &info, &data, 32);
    assert_eq!(result.err(), Some(DiffError::SizeMismatch));
    let ok = receiver.compare("", &info, &data, 64);
    assert!(ok.is_ok());
    assert_eq!(ok.unwrap().common.len(), 4);
}

#[test]
fn check_is_identical_confirms_only_equal_sized_blocks() {
    let data = pattern(256);
    let sender = Sender::new("src", Verbosity::OFF, 64);
    let info = sender.get_file_chunks("src", &data);
    let mut seed = Receiver { path: String::new(), verbosity: Verbosity::OFF };
    let receiver = seed.new("dst", Verbosity::OFF);
    // a window equal to the second block, found at an unrelated offset
    let hit = receiver.check_is_identical(&data[64..128], 500, &info);
    assert_eq!(hit, Some(Common { src_begin: 64, dst_begin: 500, size: 64 }));
    // a corrupted window misses
    let mut bad = data[64..128].to_vec();
    bad[0] ^= 1;
    assert_eq!(receiver.check_is_identical(&bad, 500, &info), None);
    // a truncated window never matches a full block
    assert_eq!(receiver.check_is_identical(&data[64..96], 64, &info), None);
}

#[test]
fn chunk_iterator_walks_blocks_in_order() {
    let data = pattern(150);
    let mut it = FileChunkIterator::new(data.clone(), 64);
    let first = it.next_chunk().unwrap();
    assert_eq!((first.2.begin, first.2.size), (0, 64));
    assert_eq!(first.0, adler32(&data[0..64]));
    let second = it.next_chunk().unwrap();
    assert_eq!((second.2.begin, second.2.size), (64, 64));
    let third = it.next_chunk().unwrap();
    assert_eq!((third.2.begin, third.2.size), (128, 22));
    assert_eq!(third.0, adler32(&data[128..150]));
    assert!(it.next_chunk().is_none());
}

#[test]
fn single_short_block_identity() {
    let data = vec![5u8, 6, 7];
    let commons = diff(&data, Some(&data), 64);
    assert_eq!(commons, vec![Common { src_begin: 0, dst_begin: 0, size: 3 }]);
}

#[test]
fn truncated_destination_keeps_whole_blocks_only() {
    let src = pattern(128);
    let commons = diff(&src, Some(&src[..64]), 64);
    assert_eq!(commons, vec![Common { src_begin: 0, dst_begin: 0, size: 64 }]);
}

#[test]
fn corrupted_tail_leaves_only_leading_blocks() {
    // the final short block is damaged: the scan shrinks its window to
    // the end without ever confirming it
    let src = pattern(100);
    let mut dst = src.clone();
    dst[99] ^= 0xFF;
    let commons = diff(&src, Some(&dst), 64);
    assert_eq!(commons, vec![Common { src_begin: 0, dst_begin: 0, size: 64 }]);
}

#[test]
fn corrupted_head_still_recovers_short_final_block() {
    // the first block is damaged: the window slides and then shrinks
    // until it lines up with the short final block
    let src = pattern(100);
    let mut dst = src.clone();
    dst[0] ^= 0xFF;
    let commons = diff(&src, Some(&dst), 64);
    assert_eq!(commons, vec![Common { src_begin: 64, dst_begin: 64, size: 36 }]);
}

#[test]
fn client_reports_empty_relative_path_for_the_root_pair() {
    let client = Client::new("a".to_string(), "b".to_string(), 8);
    let data = pattern(20);
    let result = client.run(&data, Some(&data));
    assert_eq!(result.path_suffix, "");
    let covered: usize = result.common.iter().map(|c| c.size).sum();
    assert_eq!(covered, 20);
}

#[test]
fn merged_indexes_answer_for_both_sources() {
    let first: Vec<u8> = (0..128).map(|i| i as u8).collect();
    let second: Vec<u8> = (0..128).map(|i| (250 - i) as u8).collect();
    let sender = Sender::new("src", Verbosity::OFF, 64);
    let mut merged = sender.get_file_chunks("src", &first).data;
    let other = sender.get_file_chunks("src", &second).data;
    merge_maps(&mut merged, other);
    assert_eq!(merged.len(), 4);
    assert_eq!(merged.block_size(), 64);
    let info = FileInfo { path_suffix: String::new(), data: merged };
    let mut seed = Receiver { path: String::new(), verbosity: Verbosity::OFF };
    let receiver = seed.new("dst", Verbosity::OFF);
    // blocks of either source are found in the merged index
    assert_eq!(
        receiver.check_is_identical(&first[64..128], 9, &info),
        Some(Common { src_begin: 64, dst_begin: 9, size: 64 })
    );
    assert_eq!(
        receiver.check_is_identical(&second[0..64], 0, &info),
        Some(Common { src_begin: 0, dst_begin: 0, size: 64 })
    );
}

#[test]
fn get_suffix_strips_the_root() {
    assert_eq!(get_suffix("dir/a.txt", "dir/"), Ok("a.txt".to_string()));
    assert_eq!(get_suffix("dir/a.txt", "dir"), Ok("a.txt".to_string()));
    assert_eq!(get_suffix("same", "same"), Ok(String::new()));
    assert_eq!(get_suffix("a/b", ""), Ok("a/b".to_string()));
    // a byte prefix that breaks a component is no root
    assert_eq!(get_suffix("dirx/a", "dir"), Err(DiffError::NotUnderRoot));
    assert_eq!(get_suffix("elsewhere/a", "dir"), Err(DiffError::NotUnderRoot));
    assert_eq!(get_suffix("d", "dir"), Err(DiffError::NotUnderRoot));
}
