use std::io::Write;

use loghunter::archive::decode;
use loghunter::crawl::scan_archive;
use loghunter::dates::Date;
use loghunter::links::extract;

fn zip_bytes(entries: &[(&str, &[u8])]) -> Vec<u8> {
    let mut writer = zip::ZipWriter::new(std::io::Cursor::new(Vec::new()));
    let options = zip::write::SimpleFileOptions::default();
    for (name, content) in entries {
        writer.start_file(*name, options).unwrap();
        writer.write_all(content).unwrap();
    }
    writer.finish().unwrap().into_inner()
}

fn targz_bytes(entries: &[(&str, &[u8])]) -> Vec<u8> {
    let mut builder = tar::Builder::new(Vec::new());
    for (name, content) in entries {
        let mut header = tar::Header::new_gnu();
        header.set_size(content.len() as u64);
        header.set_cksum();
        builder.append_data(&mut header, *name, *content).unwrap();
    }
    let tar = builder.into_inner().unwrap();
    let mut gz = flate2::write::GzEncoder::new(Vec::new(), flate2::Compression::default());
    gz.write_all(&tar).unwrap();
    gz.finish().unwrap()
}

#[test]
fn plain_buffer_is_one_entry() {
    let entries = decode(&b"raw data".to_vec(), &"notes.txt".to_string());
    assert_eq!(entries.len(), 1);
    assert_eq!(entries[0].logical_path, "file");
    assert_eq!(entries[0].content, b"raw data".to_vec());
}

#[test]
fn zip_entries_are_decoded_in_order() {
    let bytes = zip_bytes(&[("a.log", b"alpha\n"), ("b.log", b"beta\n")]);
    let entries = decode(&bytes, &"archive-2023-05-01.zip".to_string());
    assert_eq!(entries.len(), 2);
    assert_eq!(entries[0].logical_path, "zip:a.log");
    assert_eq!(entries[0].content, b"alpha\n".to_vec());
    assert_eq!(entries[1].logical_path, "zip:b.log");
    assert_eq!(entries[1].content, b"beta\n".to_vec());
}

#[test]
fn zip_directory_entries_are_skipped() {
    let mut writer = zip::ZipWriter::new(std::io::Cursor::new(Vec::new()));
    let options = zip::write::SimpleFileOptions::default();
    writer.add_directory("logs/", options).unwrap();
    writer.start_file("logs/a.log", options).unwrap();
    writer.write_all(b"inside\n").unwrap();
    let bytes = writer.finish().unwrap().into_inner();
    let entries = decode(&bytes, &"x.zip".to_string());
    assert_eq!(entries.len(), 1);
    assert_eq!(entries[0].logical_path, "zip:logs/a.log");
}

#[test]
fn corrupt_zip_yields_no_entries() {
    let entries = decode(&b"not a zip at all".to_vec(), &"x.zip".to_string());
    assert!(entries.is_empty());
}

#[test]
fn targz_entries_are_decoded_in_order() {
    let bytes = targz_bytes(&[("one.txt", b"1\n"), ("two.txt", b"2\n")]);
    let entries = decode(&bytes, &"logs.tar.gz".to_string());
    assert_eq!(entries.len(), 2);
    assert_eq!(entries[0].logical_path, "tar:one.txt");
    assert_eq!(entries[0].content, b"1\n".to_vec());
    assert_eq!(entries[1].logical_path, "tar:two.txt");
}

#[test]
fn tgz_suffix_also_decodes_as_tar() {
    let bytes = targz_bytes(&[("a.txt", b"x\n")]);
    let entries = decode(&bytes, &"logs.tgz".to_string());
    assert_eq!(entries.len(), 1);
    assert_eq!(entries[0].logical_path, "tar:a.txt");
}

#[test]
fn decoding_twice_yields_the_same_entries() {
    let bytes = zip_bytes(&[("a.log", b"alpha\n"), ("b.log", b"beta\n")]);
    let name = "archive-2023-05-01.zip".to_string();
    let first = decode(&bytes, &name);
    let second = decode(&bytes, &name);
    assert_eq!(first.len(), second.len());
    for (a, b) in first.iter().zip(second.iter()) {
        assert_eq!(a.logical_path, b.logical_path);
        assert_eq!(a.content, b.content);
    }
}

#[test]
fn index_to_match_pipeline() {
    let html = r#"<a href="log-2023-05-01.zip">log</a>"#;
    let names = extract(
        html,
        &Date { year: 2023, month: 4, day: 1 },
        &Date { year: 2023, month: 6, day: 1 },
    );
    assert_eq!(names, vec!["log-2023-05-01.zip".to_string()]);
    let bytes = zip_bytes(&[("a.log", b"2023-05-01 ERROR disk full\n")]);
    let events = scan_archive(&bytes, &names[0], &b"ERROR".to_vec());
    assert_eq!(events.len(), 1);
    assert_eq!(events[0].display_name, "log-2023-05-01.zip > zip:a.log");
    assert_eq!(events[0].preview, "2023-05-01 ERROR disk full");
}

#[test]
fn out_of_range_index_yields_no_tasks() {
    let html = r#"<a href="log-2023-05-01.zip">log</a>"#;
    let names = extract(
        html,
        &Date { year: 2023, month: 6, day: 1 },
        &Date { year: 2023, month: 12, day: 31 },
    );
    assert!(names.is_empty());
    let base = "http://example.test/logs/".to_string();
    let tasks = loghunter::crawl::build_tasks(&base, &names);
    assert!(tasks.is_empty());
}

#[test]
fn plain_entry_uses_filename_alone() {
    let events = scan_archive(
        &b"a ERROR line\n".to_vec(),
        &"server.log".to_string(),
        &b"ERROR".to_vec(),
    );
    assert_eq!(events.len(), 1);
    assert_eq!(events[0].display_name, "server.log");
    assert_eq!(events[0].preview, "a ERROR line");
}
