use plate_ingest::pipeline::{process_zip_file, EntryError, Notice};
use plate_ingest::store::RecordStore;
use std::io::{Cursor, Write};
use std::time::SystemTime;
use zip::write::FileOptions;
use zip::{CompressionMethod, ZipWriter};

enum Part<'a> {
    Stored(&'a str, &'a str),
    Deflated(&'a str, &'a str),
    Raw(&'a str, &'a [u8]),
    Dir(&'a str),
}

fn archive(parts: &[Part]) -> Vec<u8> {
    let mut writer = ZipWriter::new(Cursor::new(Vec::new()));
    for part in parts {
        match part {
            Part::Stored(name, content) => {
                let options = FileOptions::default().compression_method(CompressionMethod::Stored);
                writer.start_file(*name, options).unwrap();
                writer.write_all(content.as_bytes()).unwrap();
            }
            Part::Deflated(name, content) => {
                let options =
                    FileOptions::default().compression_method(CompressionMethod::Deflated);
                writer.start_file(*name, options).unwrap();
                writer.write_all(content.as_bytes()).unwrap();
            }
            Part::Raw(name, content) => {
                let options = FileOptions::default().compression_method(CompressionMethod::Stored);
                writer.start_file(*name, options).unwrap();
                writer.write_all(content).unwrap();
            }
            Part::Dir(name) => {
                writer.add_directory(*name, FileOptions::default()).unwrap();
            }
        }
    }
    writer.finish().unwrap().into_inner()
}

fn vehicles(plates: &[&str]) -> String {
    let mut doc = String::from("<?xml version=\"1.0\" encoding=\"UTF-8\"?>\n<Vehicles>\n");
    for plate in plates {
        doc.push_str("  <Vehicle>\n    <Make>Volvo</Make>\n    <LicensePlate>");
        doc.push_str(plate);
        doc.push_str("</LicensePlate>\n  </Vehicle>\n");
    }
    doc.push_str("</Vehicles>\n");
    doc
}

fn find(haystack: &[u8], needle: &[u8], from: usize) -> usize {
    (from..haystack.len() - needle.len() + 1)
        .find(|i| &haystack[*i..*i + needle.len()] == needle)
        .unwrap()
}

fn started(name: &str, size: usize) -> Notice {
    Notice::EntryStarted { name: name.to_string(), size: size as u64 }
}

#[test]
fn two_entries_one_broken_after_a_valid_record() {
    let a = vehicles(&["AB12345", "AB12345", "CD67890"]);
    let b = "<Vehicles><Vehicle><LicensePlate>EF11111</LicensePlate></Vehicle>\
             <Vehicle><LicensePlate>GH22222</Oops></Vehicle></Vehicles>";
    let bytes = archive(&[Part::Deflated("a.xml", &a), Part::Deflated("b.xml", b)]);
    let mut store = RecordStore::new();
    let report = process_zip_file(bytes, &mut store).unwrap();

    assert_eq!(store.len(), 3);
    assert_eq!(
        store.keys_sorted(),
        vec!["AB12345".to_string(), "CD67890".to_string(), "EF11111".to_string()]
    );
    assert_eq!(report.processed, 4);
    assert_eq!(report.notices.len(), 3);
    assert_eq!(report.notices[0], started("a.xml", a.len()));
    assert_eq!(report.notices[1], started("b.xml", b.len()));
    match &report.notices[2] {
        Notice::Warning(EntryError::Parse { entry_name, position, reason }) => {
            assert_eq!(entry_name, "b.xml");
            assert!(*position > 0 && *position <= b.len() as u64);
            assert!(!reason.is_empty());
        }
        other => panic!("unexpected notice {:?}", other),
    }
}

#[test]
fn records_are_stamped_during_the_run() {
    let before = SystemTime::now();
    let bytes = archive(&[Part::Stored("a.xml", &vehicles(&["AB12345"]))]);
    let mut store = RecordStore::new();
    process_zip_file(bytes, &mut store).unwrap();
    let after = SystemTime::now();
    let record = store.get("AB12345").unwrap();
    assert_eq!(record.identifier(), "AB12345");
    assert!(before <= record.observed_at() && record.observed_at() <= after);
}

#[test]
fn bytes_that_are_no_archive_are_refused() {
    let mut store = RecordStore::new();
    let error = process_zip_file(b"this is not a zip archive".to_vec(), &mut store).unwrap_err();
    assert!(!error.reason.is_empty());
    assert_eq!(store.len(), 0);
    assert!(process_zip_file(Vec::new(), &mut store).is_err());
}

#[test]
fn refusal_leaves_the_store_as_it_was() {
    let mut store = RecordStore::new();
    process_zip_file(archive(&[Part::Stored("a.xml", &vehicles(&["KEEP1"]))]), &mut store)
        .unwrap();
    let stamp = store.get("KEEP1").unwrap().observed_at();
    assert!(process_zip_file(vec![0u8; 64], &mut store).is_err());
    assert_eq!(store.keys_sorted(), vec!["KEEP1".to_string()]);
    assert_eq!(store.get("KEEP1").unwrap().observed_at(), stamp);
}

#[test]
fn empty_archive_yields_nothing() {
    let mut store = RecordStore::new();
    let report = process_zip_file(archive(&[]), &mut store).unwrap();
    assert_eq!(report.processed, 0);
    assert_eq!(report.notices, Vec::<Notice>::new());
    assert_eq!(store.len(), 0);
}

#[test]
fn directories_are_passed_over() {
    let doc = vehicles(&["AB12345"]);
    let bytes = archive(&[Part::Dir("data/"), Part::Stored("data/a.xml", &doc), Part::Dir("x/")]);
    let mut store = RecordStore::new();
    let report = process_zip_file(bytes, &mut store).unwrap();
    assert_eq!(report.processed, 1);
    assert_eq!(report.notices, vec![started("data/a.xml", doc.len())]);
    assert_eq!(store.keys_sorted(), vec!["AB12345".to_string()]);
}

#[test]
fn text_is_trimmed_and_entities_are_resolved() {
    let doc = "<Vehicles><Vehicle><LicensePlate>\n   AB 123  \n</LicensePlate></Vehicle>\
               <Vehicle><LicensePlate>A&amp;B&lt;1</LicensePlate></Vehicle>\
               <Vehicle><LicensePlate>   </LicensePlate></Vehicle>\
               <Vehicle><LicensePlate/></Vehicle>\
               <Vehicle/></Vehicles>";
    let mut store = RecordStore::new();
    let report = process_zip_file(archive(&[Part::Stored("t.xml", doc)]), &mut store).unwrap();
    assert_eq!(report.processed, 2);
    assert_eq!(store.keys_sorted(), vec!["A&B<1".to_string(), "AB 123".to_string()]);
}

#[test]
fn unknown_entity_leaves_the_plate_out() {
    let doc = "<Vehicles><Vehicle><LicensePlate>A&nosuch;B</LicensePlate></Vehicle>\
               <Vehicle><LicensePlate>OK1</LicensePlate></Vehicle></Vehicles>";
    let mut store = RecordStore::new();
    let report = process_zip_file(archive(&[Part::Stored("t.xml", doc)]), &mut store).unwrap();
    assert_eq!(report.processed, 1);
    assert_eq!(report.notices, vec![started("t.xml", doc.len())]);
    assert_eq!(store.keys_sorted(), vec!["OK1".to_string()]);
}

#[test]
fn state_does_not_pass_from_one_entry_to_the_next() {
    let open = "<Vehicles><Vehicle><LicensePlate>LOST";
    let next = "<Vehicles>FOUND<Vehicle></Vehicle></Vehicles>";
    let bytes = archive(&[Part::Stored("open.xml", open), Part::Stored("next.xml", next)]);
    let mut store = RecordStore::new();
    let report = process_zip_file(bytes, &mut store).unwrap();
    assert_eq!(report.processed, 0);
    assert_eq!(store.len(), 0);
    assert_eq!(
        report.notices,
        vec![started("open.xml", open.len()), started("next.xml", next.len())]
    );
}

#[test]
fn truncated_document_keeps_what_came_before() {
    let whole = vehicles(&["AA11111", "BB22222", "CC33333"]);
    let cut = find(whole.as_bytes(), b"CC33333", 0) + 3;
    let doc = format!("{}</Vehicle>", &whole[..cut]);
    let mut store = RecordStore::new();
    let report = process_zip_file(archive(&[Part::Deflated("cut.xml", &doc)]), &mut store).unwrap();
    assert_eq!(report.processed, 2);
    assert_eq!(store.keys_sorted(), vec!["AA11111".to_string(), "BB22222".to_string()]);
    assert_eq!(report.notices.len(), 2);
    assert!(matches!(
        &report.notices[1],
        Notice::Warning(EntryError::Parse { entry_name, .. }) if entry_name == "cut.xml"
    ));
}

#[test]
fn milestones_come_at_each_thousand_of_the_run() {
    let first: Vec<String> = (0..1500).map(|i| format!("P{:05}", i)).collect();
    let second: Vec<String> = (0..600).map(|i| format!("P{:05}", i)).collect();
    let first_refs: Vec<&str> = first.iter().map(|s| s.as_str()).collect();
    let second_refs: Vec<&str> = second.iter().map(|s| s.as_str()).collect();
    let a = vehicles(&first_refs);
    let b = vehicles(&second_refs);
    let bytes = archive(&[Part::Deflated("a.xml", &a), Part::Deflated("b.xml", &b)]);
    let mut store = RecordStore::new();
    let report = process_zip_file(bytes, &mut store).unwrap();
    assert_eq!(report.processed, 2100);
    assert_eq!(store.len(), 1500);
    assert_eq!(
        report.notices,
        vec![
            started("a.xml", a.len()),
            Notice::Milestone { processed: 1000 },
            started("b.xml", b.len()),
            Notice::Milestone { processed: 2000 },
        ]
    );
}

#[test]
fn entry_with_damaged_content_is_given_up_as_undecodable() {
    let good = vehicles(&["AA11111"]);
    let bad = vehicles(&["BB22222", "CC33333"]);
    let last = vehicles(&["DD44444"]);
    let mut bytes = archive(&[
        Part::Stored("good.xml", &good),
        Part::Stored("bad.xml", &bad),
        Part::Stored("last.xml", &last),
    ]);
    let at = find(&bytes, b"<Make>", find(&bytes, b"BB22222", 0));
    bytes[at + 1] = b'm';
    let at = find(&bytes, b"</Make>", at);
    bytes[at + 2] = b'm';
    let mut store = RecordStore::new();
    let report = process_zip_file(bytes, &mut store).unwrap();
    assert_eq!(report.processed, 4);
    assert_eq!(
        store.keys_sorted(),
        vec![
            "AA11111".to_string(),
            "BB22222".to_string(),
            "CC33333".to_string(),
            "DD44444".to_string()
        ]
    );
    assert_eq!(report.notices.len(), 4);
    assert_eq!(report.notices[1], started("bad.xml", bad.len()));
    match &report.notices[2] {
        Notice::Warning(EntryError::Decode { index, name, reason }) => {
            assert_eq!(*index, 1);
            assert_eq!(name, "bad.xml");
            assert!(!reason.is_empty());
        }
        other => panic!("unexpected notice {:?}", other),
    }
    assert_eq!(report.notices[3], started("last.xml", last.len()));
}

#[test]
fn entry_that_does_not_open_is_given_up_and_the_run_goes_on() {
    let first = vehicles(&["AA11111"]);
    let second = vehicles(&["BB22222"]);
    let mut bytes =
        archive(&[Part::Stored("first.xml", &first), Part::Stored("second.xml", &second)]);
    assert_eq!(&bytes[0..4], b"PK\x03\x04");
    bytes[2] = 0x07;
    let mut store = RecordStore::new();
    let report = process_zip_file(bytes, &mut store).unwrap();
    assert_eq!(report.processed, 1);
    assert_eq!(store.keys_sorted(), vec!["BB22222".to_string()]);
    assert_eq!(report.notices.len(), 2);
    match &report.notices[0] {
        Notice::Warning(EntryError::Decode { index, name, reason }) => {
            assert_eq!(*index, 0);
            assert_eq!(name, "");
            assert!(!reason.is_empty());
        }
        other => panic!("unexpected notice {:?}", other),
    }
    assert_eq!(report.notices[1], started("second.xml", second.len()));
}

#[test]
fn a_second_run_adds_to_the_store() {
    let mut store = RecordStore::new();
    process_zip_file(archive(&[Part::Stored("a.xml", &vehicles(&["B", "A"]))]), &mut store)
        .unwrap();
    let first_stamp = store.get("A").unwrap().observed_at();
    let report =
        process_zip_file(archive(&[Part::Stored("b.xml", &vehicles(&["C", "B"]))]), &mut store)
            .unwrap();
    assert_eq!(report.processed, 2);
    assert_eq!(store.keys_sorted(), vec!["A".to_string(), "B".to_string(), "C".to_string()]);
    assert_eq!(store.get("A").unwrap().observed_at(), first_stamp);
}

#[test]
fn character_data_sections_are_not_text() {
    let doc = "<Vehicles><Vehicle><LicensePlate><![CDATA[AB12345]]></LicensePlate></Vehicle>\
               <Vehicle><LicensePlate>CD67890</LicensePlate></Vehicle></Vehicles>";
    let mut store = RecordStore::new();
    let report = process_zip_file(archive(&[Part::Stored("c.xml", doc)]), &mut store).unwrap();
    assert_eq!(report.processed, 1);
    assert_eq!(store.keys_sorted(), vec!["CD67890".to_string()]);
}

#[test]
fn text_after_a_comment_takes_the_place_of_text_before_it() {
    let doc = "<Vehicles><Vehicle><LicensePlate>AB<!-- split -->CD</LicensePlate></Vehicle></Vehicles>";
    let mut store = RecordStore::new();
    let report = process_zip_file(archive(&[Part::Stored("c.xml", doc)]), &mut store).unwrap();
    assert_eq!(report.processed, 1);
    assert_eq!(store.keys_sorted(), vec!["CD".to_string()]);
}

#[test]
fn prefixed_and_differently_cased_names_are_other_elements() {
    let doc = "<r:Vehicles xmlns:r=\"urn:r\"><r:Vehicle><r:LicensePlate>NS1</r:LicensePlate></r:Vehicle>\
               <vehicle><LicensePlate>LOW</LicensePlate></vehicle>\
               <Vehicle><licenseplate>LOW2</licenseplate></Vehicle>\
               <Vehicle><LicensePlate>OK2</LicensePlate></Vehicle></r:Vehicles>";
    let mut store = RecordStore::new();
    let report = process_zip_file(archive(&[Part::Stored("n.xml", doc)]), &mut store).unwrap();
    assert_eq!(report.processed, 1);
    assert_eq!(store.keys_sorted(), vec!["OK2".to_string()]);
}

#[test]
fn text_that_is_not_utf8_leaves_the_plate_out() {
    let mut doc = b"<Vehicles><Vehicle><LicensePlate>A".to_vec();
    doc.extend_from_slice(&[0xFF, 0xFE]);
    doc.extend_from_slice(b"B</LicensePlate></Vehicle><Vehicle><LicensePlate>OK3</LicensePlate></Vehicle></Vehicles>");
    let mut store = RecordStore::new();
    let report = process_zip_file(archive(&[Part::Raw("u.xml", &doc)]), &mut store).unwrap();
    assert_eq!(report.processed, 1);
    assert_eq!(report.notices, vec![started("u.xml", doc.len())]);
    assert_eq!(store.keys_sorted(), vec!["OK3".to_string()]);
}

#[test]
fn nested_plate_elements_deeper_in_a_vehicle_count() {
    let doc = "<Vehicles><Vehicle><Registration><LicensePlate>DEEP1</LicensePlate></Registration>\
               </Vehicle></Vehicles>";
    let mut store = RecordStore::new();
    process_zip_file(archive(&[Part::Stored("d.xml", doc)]), &mut store).unwrap();
    assert_eq!(store.keys_sorted(), vec!["DEEP1".to_string()]);
}

#[test]
fn empty_document_is_read_without_a_warning() {
    let mut store = RecordStore::new();
    let report = process_zip_file(archive(&[Part::Stored("e.xml", "")]), &mut store).unwrap();
    assert_eq!(report.processed, 0);
    assert_eq!(report.notices, vec![started("e.xml", 0)]);
}

#[test]
fn backslash_at_the_end_of_a_name_marks_a_directory() {
    let doc = vehicles(&["AB12345"]);
    let bytes = archive(&[Part::Stored("odd\\", &doc), Part::Stored("plain", &doc)]);
    let mut store = RecordStore::new();
    let report = process_zip_file(bytes, &mut store).unwrap();
    assert_eq!(report.processed, 1);
    assert_eq!(report.notices.len(), 1);
    assert!(matches!(&report.notices[0], Notice::EntryStarted { name, .. } if name == "plain"));
}
