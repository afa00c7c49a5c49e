use hypercompress::archive::{
    archive_order, build_archive, extract_checked, file_sort_key, group_by_type, is_archive, list_archive,
    solid_cap_for_level, split_solid_group, ArchiveError,
};
use hypercompress::chunk::REGION_SIZE;
use hypercompress::compress::FileProfile;
use hypercompress::entropy::EntropyBand;
use hypercompress::format::DataType;

fn shannon(data: &[u8]) -> f64 {
    if data.is_empty() {
        return 0.0;
    }
    let mut hist = [0u64; 256];
    for &b in data {
        hist[b as usize] += 1;
    }
    let n = data.len() as f64;
    let mut e = 0.0;
    for &c in hist.iter() {
        if c > 0 {
            let p = c as f64 / n;
            e -= p * p.log2();
        }
    }
    e
}

fn transitions_of(data: &[u8]) -> Vec<bool> {
    let regions: Vec<&[u8]> = data.chunks(REGION_SIZE).collect();
    let mut out = Vec::with_capacity(regions.len());
    for i in 0..regions.len() {
        out.push(i > 0 && (shannon(regions[i]) - shannon(regions[i - 1])).abs() > 2.5);
    }
    out
}

fn band_of(data: &[u8]) -> EntropyBand {
    let e = shannon(data);
    if e <= 5.5 {
        EntropyBand::Low
    } else if e <= 7.5 {
        EntropyBand::Moderate
    } else if e <= 7.8 {
        EntropyBand::High
    } else {
        EntropyBand::Incompressible
    }
}

fn classify(data: &[u8]) -> DataType {
    if shannon(data) > 7.9 {
        DataType::CompressedOrRandom
    } else {
        DataType::Binary
    }
}

fn profile_of(data: &[u8]) -> FileProfile {
    let e = shannon(data);
    FileProfile { entropy_above_7_9: e > 7.9, entropy_above_7_0: e > 7.0, data_type: classify(data) }
}

fn sample_files() -> (Vec<Vec<u8>>, Vec<Vec<u8>>) {
    let mut paths = Vec::new();
    let mut datas = Vec::new();
    paths.push(b"b/notes.txt".to_vec());
    datas.push("some notes, some notes, some notes\n".repeat(40).into_bytes());
    paths.push(b"a/readme.txt".to_vec());
    datas.push("read me first. read me first.\n".repeat(300).into_bytes());
    paths.push(b"data.bin".to_vec());
    datas.push((0..6000u32).map(|i| (i % 7) as u8).collect());
    paths.push(b"image.png".to_vec());
    datas.push(vec![0x89, b'P', b'N', b'G', 1, 2, 3]);
    paths.push(b"empty.md".to_vec());
    datas.push(Vec::new());
    (paths, datas)
}

fn roundtrip_at(level: u32) {
    let (paths, datas) = sample_files();
    let (archive, stats) = build_archive(&paths, &datas, level, &transitions_of, &classify, &band_of, &profile_of);
    assert!(is_archive(&archive));
    assert_eq!(stats.file_count, paths.len());
    assert_eq!(stats.archive_size, archive.len() as u64);
    assert_eq!(stats.total_original, datas.iter().map(|d| d.len() as u64).sum::<u64>());
    let files = extract_checked(&archive).unwrap().unwrap();
    assert_eq!(files.len(), paths.len());
    for f in &files {
        let i = paths.iter().position(|p| *p == f.path).unwrap();
        assert_eq!(f.data, datas[i], "level {} file {:?}", level, String::from_utf8_lossy(&f.path));
        assert_eq!(f.size, datas[i].len() as u64);
    }
}

#[test]
fn archive_roundtrip_level_1() {
    roundtrip_at(1);
}

#[test]
fn archive_roundtrip_level_3() {
    roundtrip_at(3);
}

#[test]
fn archive_roundtrip_level_6() {
    roundtrip_at(6);
}

#[test]
fn archive_orders_by_group_then_path() {
    let (paths, datas) = sample_files();
    let (archive, _) = build_archive(&paths, &datas, 1, &transitions_of, &classify, &band_of, &profile_of);
    let listed = list_archive(&archive).unwrap();
    let names: Vec<Vec<u8>> = listed.iter().map(|f| f.path.clone()).collect();
    // group 0 first (the md file, then the txt files by path), then bin (4), then png (11)
    assert_eq!(
        names,
        vec![b"empty.md".to_vec(), b"a/readme.txt".to_vec(), b"b/notes.txt".to_vec(), b"data.bin".to_vec(), b"image.png".to_vec()]
    );
    assert_eq!(listed[1].original_size, datas[1].len() as u64);
}

#[test]
fn sort_keys_by_extension_and_magic() {
    assert_eq!(file_sort_key(b"notes.TXT", b"x"), (0, b"txt".to_vec()));
    assert_eq!(file_sort_key(b"lib.rs", b""), (1, b"rs".to_vec()));
    assert_eq!(file_sort_key(b"photo", &[0xFF, 0xD8, 0]), (11, b"photo".to_vec()));
    assert_eq!(file_sort_key(b"a.b/c", &[0x1F, 0x8B]), (10, b"b/c".to_vec()));
    assert_eq!(file_sort_key(b"thing.xyz", b"plain"), (7, b"xyz".to_vec()));
}

#[test]
fn caps_per_level() {
    assert_eq!(solid_cap_for_level(1), 0);
    assert_eq!(solid_cap_for_level(4), 64 * 1024 * 1024);
    assert_eq!(solid_cap_for_level(5), 128 * 1024 * 1024);
    assert_eq!(solid_cap_for_level(6), 512 * 1024 * 1024);
    assert_eq!(solid_cap_for_level(9), 2 * 1024 * 1024 * 1024);
}

#[test]
fn split_respects_cap() {
    let sizes = vec![10u64, 10, 10, 50, 5];
    let runs = split_solid_group(&vec![0, 1, 2, 3, 4], &sizes, 25);
    assert_eq!(runs, vec![vec![0, 1], vec![2], vec![3], vec![4]]);
    let all = split_solid_group(&vec![0, 1, 2], &sizes, 0);
    assert_eq!(all, vec![vec![0], vec![1], vec![2]]);
}

#[test]
fn groups_are_runs_of_equal_keys() {
    let keys = vec![(0u8, b"txt".to_vec()), (0, b"txt".to_vec()), (0, b"md".to_vec()), (7, b"".to_vec())];
    assert_eq!(group_by_type(&keys), vec![vec![0, 1], vec![2], vec![3]]);
}

#[test]
fn order_sorts_by_key_then_path() {
    let keys = vec![(7u8, b"bin".to_vec()), (0, b"txt".to_vec()), (0, b"txt".to_vec())];
    let paths = vec![b"z.bin".to_vec(), b"b.txt".to_vec(), b"a.txt".to_vec()];
    assert_eq!(archive_order(&keys, &paths), vec![2, 1, 0]);
}

#[test]
fn not_an_archive() {
    assert_eq!(extract_checked(b"HCAX and more bytes").unwrap().unwrap_err(), ArchiveError::NotArchive);
    assert_eq!(list_archive(b"HCAR").unwrap_err(), ArchiveError::NotArchive);
    assert!(!is_archive(b"HCA"));
}

#[test]
fn unsupported_version() {
    let mut a = b"HCAR".to_vec();
    a.extend_from_slice(&9u16.to_le_bytes());
    a.extend_from_slice(&0u32.to_le_bytes());
    assert_eq!(extract_checked(&a).unwrap().unwrap_err(), ArchiveError::UnsupportedVersion(9));
}

#[test]
fn stored_blob_extracts_as_is() {
    let mut a = b"HCAR".to_vec();
    a.extend_from_slice(&3u16.to_le_bytes());
    a.extend_from_slice(&1u32.to_le_bytes());
    a.extend_from_slice(&5u16.to_le_bytes());
    a.extend_from_slice(b"x.txt");
    a.extend_from_slice(&3u64.to_le_bytes());
    a.extend_from_slice(&4u64.to_le_bytes());
    a.extend_from_slice(&[0, b'a', b'b', b'c']);
    let files = extract_checked(&a).unwrap().unwrap();
    assert_eq!(files.len(), 1);
    assert_eq!(files[0].path, b"x.txt".to_vec());
    assert_eq!(files[0].data, b"abc".to_vec());
}

#[test]
fn extraction_follows_the_listing() {
    // many similar small text files share a run; every file comes back once, in archive order
    let mut paths = Vec::new();
    let mut datas = Vec::new();
    for i in 0..6u32 {
        paths.push(format!("logs/day{}.txt", 5 - i).into_bytes());
        datas.push(format!("day {} ok; all systems nominal; temperature {}\n", i, 20 + i).repeat(30).into_bytes());
    }
    for level in [1u32, 6, 9] {
        let (archive, _) = build_archive(&paths, &datas, level, &transitions_of, &classify, &band_of, &profile_of);
        let listed = list_archive(&archive).unwrap();
        let files = extract_checked(&archive).unwrap().unwrap();
        assert_eq!(files.len(), listed.len());
        for (f, l) in files.iter().zip(listed.iter()) {
            assert_eq!(f.path, l.path);
            assert_eq!(f.size, l.original_size);
            let i = paths.iter().position(|p| *p == f.path).unwrap();
            assert_eq!(f.data, datas[i], "level {}", level);
        }
        // sorted by path within the group
        let names: Vec<Vec<u8>> = listed.iter().map(|f| f.path.clone()).collect();
        let mut sorted = names.clone();
        sorted.sort();
        assert_eq!(names, sorted);
    }
}
