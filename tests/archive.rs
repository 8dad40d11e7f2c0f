use modorder::descriptor::{module_from_document, ModuleDescription};
use modorder::directory::{decode_directory, join_offset, parse_entries, DirectoryEntry, ENTRY_SIZE};
use modorder::document::{Attribute, XmlElement};
use modorder::error::ArchiveError;
use modorder::header::{ArchiveHeader, HEADER_SIZE};
use modorder::metadata::{find_metadata, read_metadata, strip_bom};

fn header_bytes(dir_offset: u64) -> Vec<u8> {
    let mut b = Vec::new();
    b.extend_from_slice(b"LSPK");
    b.extend_from_slice(&18u32.to_le_bytes());
    b.extend_from_slice(&dir_offset.to_le_bytes());
    b.extend_from_slice(&0x1234u32.to_le_bytes());
    b.push(0x0a);
    b.push(0x07);
    b.extend_from_slice(&[9u8, 8, 7, 6, 5, 4, 3, 2, 1, 0, 11, 12, 13, 14, 15, 16]);
    b.extend_from_slice(&3u16.to_le_bytes());
    b
}

fn record(name: &str, offset: u64, size_on_disk: u32, uncompressed: u32) -> Vec<u8> {
    let mut r = vec![0u8; 256];
    r[..name.len()].copy_from_slice(name.as_bytes());
    r.extend_from_slice(&((offset & 0xffff_ffff) as u32).to_le_bytes());
    r.extend_from_slice(&((offset >> 32) as u16).to_le_bytes());
    r.push(0);
    r.push(0);
    r.extend_from_slice(&size_on_disk.to_le_bytes());
    r.extend_from_slice(&uncompressed.to_le_bytes());
    r
}

/// An archive whose payload area holds `files` (name, contents), each compressed.
fn archive(files: &[(&str, Vec<u8>)]) -> Vec<u8> {
    let mut payloads = Vec::new();
    let mut records = Vec::new();
    for (name, data) in files {
        let c = lz4_flex::compress(data);
        let offset = (HEADER_SIZE + payloads.len()) as u64;
        records.extend(record(name, offset, c.len() as u32, data.len() as u32));
        payloads.extend(c);
    }
    let dir_offset = (HEADER_SIZE + payloads.len()) as u64;
    let mut file = header_bytes(dir_offset);
    file.extend(payloads);
    let compressed = lz4_flex::compress(&records);
    file.extend_from_slice(&(files.len() as u32).to_le_bytes());
    file.extend_from_slice(&(compressed.len() as u32).to_le_bytes());
    file.extend(compressed);
    file
}

fn attr(key: &str, value: &str) -> Attribute {
    Attribute { key: key.to_string(), value: value.to_string() }
}

fn elem(name: &str, attrs: Vec<Attribute>, children: Vec<XmlElement>) -> XmlElement {
    XmlElement { name: name.to_string(), attrs, children }
}

fn prop(id: &str, value: &str) -> XmlElement {
    elem("attribute", vec![attr("id", id), attr("type", "LSString"), attr("value", value)], vec![])
}

fn desc_node(id: &str, name: &str, uuid: &str) -> XmlElement {
    elem(
        "node",
        vec![attr("id", id)],
        vec![
            prop("Folder", &format!("{name}Folder")),
            prop("MD5", "abc"),
            prop("Name", name),
            prop("UUID", uuid),
            prop("Version64", "36028797018963968"),
        ],
    )
}

fn meta_doc(deps: Vec<XmlElement>) -> XmlElement {
    let dependencies = elem(
        "node",
        vec![attr("id", "Dependencies")],
        vec![elem("children", vec![], deps)],
    );
    let info = desc_node("ModuleInfo", "Alpha", "u-alpha");
    elem(
        "save",
        vec![],
        vec![elem(
            "region",
            vec![attr("id", "Config")],
            vec![elem("node", vec![attr("id", "root")], vec![elem("children", vec![], vec![dependencies, info])])],
        )],
    )
}

#[test]
fn header_round_trip() {
    let b = header_bytes(0x0102_0304_0506_0708);
    let h = ArchiveHeader::decode(&b).unwrap();
    assert_eq!(h.version, 18);
    assert_eq!(h.dir_offset, 0x0102_0304_0506_0708);
    assert_eq!(h.dir_size, 0x1234);
    assert_eq!(h.flags, 0x0a);
    assert_eq!(h.priority, 0x07);
    assert_eq!(h.part_count, 3);
    assert_eq!(h.encode(), b);
}

#[test]
fn header_bad_magic() {
    let mut b = header_bytes(0);
    b[0] = b'X';
    match ArchiveHeader::decode(&b) {
        Err(ArchiveError::BadMagic(m)) => assert_eq!(m, b"XSPK".to_vec()),
        other => panic!("unexpected {other:?}"),
    }
}

#[test]
fn header_too_short() {
    let b = header_bytes(0);
    assert!(matches!(ArchiveHeader::decode(&b[..HEADER_SIZE - 1]), Err(ArchiveError::OutOfBounds)));
}

#[test]
fn offset_join() {
    assert_eq!(join_offset(0x1234_5678, 0), 0x1234_5678);
    assert_eq!(join_offset(0, 1), 0x1_0000_0000);
    assert_eq!(join_offset(0xffff_ffff, 0xffff), 0xffff_ffff_ffff);
    assert_eq!(join_offset(7, 0x00ab), 0xab_0000_0007);
}

#[test]
fn entry_names() {
    let e = DirectoryEntry::decode(&record("Mods/A/meta.lsx", 0x1_0000_0002, 5, 9));
    assert_eq!(e.name(), b"Mods/A/meta.lsx".to_vec());
    assert_eq!(e.offset(), 0x1_0000_0002);
    assert_eq!(e.size_on_disk, 5);
    assert_eq!(e.uncompressed_size, 9);
    let full = "x".repeat(256);
    let e = DirectoryEntry::decode(&record(&full, 0, 0, 0));
    assert_eq!(e.name(), vec![b'x'; 255]);
    let e = DirectoryEntry::decode(&record("", 0, 0, 0));
    assert_eq!(e.name(), Vec::<u8>::new());
}

#[test]
fn entries_split_by_count() {
    let mut data = record("a", 1, 2, 3);
    data.extend(record("bb", 4, 5, 6));
    data.extend(record("ccc", 7, 8, 9));
    let entries = parse_entries(&data, 3).unwrap();
    assert_eq!(entries.len(), 3);
    assert_eq!(entries[1].name(), b"bb".to_vec());
    assert_eq!(entries[2].offset(), 7);
    assert!(matches!(parse_entries(&data, 2), Err(ArchiveError::DecompressionFailure)));
    assert!(matches!(parse_entries(&data[..ENTRY_SIZE * 3 - 1], 3), Err(ArchiveError::DecompressionFailure)));
    assert_eq!(parse_entries(&[], 0).unwrap().len(), 0);
}

#[test]
fn directory_decompressed() {
    let file = archive(&[("Mods/A/meta.lsx", b"hello".to_vec()), ("Public/x.dat", vec![1, 2, 3])]);
    let h = ArchiveHeader::decode(&file).unwrap();
    let entries = decode_directory(&file, &h).unwrap();
    assert_eq!(entries.len(), 2);
    assert_eq!(entries[0].name(), b"Mods/A/meta.lsx".to_vec());
    assert_eq!(entries[1].name(), b"Public/x.dat".to_vec());
    assert_eq!(entries[1].uncompressed_size, 3);
}

#[test]
fn directory_out_of_bounds() {
    let file = header_bytes(1000);
    let h = ArchiveHeader::decode(&file).unwrap();
    assert!(matches!(decode_directory(&file, &h), Err(ArchiveError::OutOfBounds)));
}

#[test]
fn directory_corrupt_block() {
    let mut file = header_bytes(HEADER_SIZE as u64);
    file.extend_from_slice(&2u32.to_le_bytes());
    file.extend_from_slice(&4u32.to_le_bytes());
    file.extend_from_slice(&[0xf0, 0xff, 0xff, 0xff]);
    let h = ArchiveHeader::decode(&file).unwrap();
    assert!(matches!(decode_directory(&file, &h), Err(ArchiveError::DecompressionFailure)));
}

#[test]
fn metadata_found_and_bom_stripped() {
    let mut doc = "\u{feff}".as_bytes().to_vec();
    doc.extend_from_slice(b"<save/>");
    let file = archive(&[("Public/x.dat", vec![5; 40]), ("Mods/A/meta.lsx", doc), ("Mods/B/meta.lsx", b"<b/>".to_vec())]);
    let h = ArchiveHeader::decode(&file).unwrap();
    let entries = decode_directory(&file, &h).unwrap();
    assert_eq!(find_metadata(&entries), 1);
    assert_eq!(read_metadata(&file, &entries).unwrap(), b"<save/>".to_vec());
}

#[test]
fn metadata_missing() {
    let file = archive(&[("Mods/A/other.lsx", vec![1]), ("Mods/meta.lsx.bak", vec![2])]);
    let h = ArchiveHeader::decode(&file).unwrap();
    let entries = decode_directory(&file, &h).unwrap();
    assert_eq!(find_metadata(&entries), 2);
    assert!(matches!(read_metadata(&file, &entries), Err(ArchiveError::NoMetadata)));
}

#[test]
fn bom_only_at_start() {
    assert_eq!(strip_bom(b"abc".to_vec()), b"abc".to_vec());
    let mut with = "\u{feff}".as_bytes().to_vec();
    with.push(b'z');
    assert_eq!(strip_bom(with), b"z".to_vec());
}

#[test]
fn module_read_from_document() {
    let doc = meta_doc(vec![
        desc_node("ModuleShortDesc", "Beta", "u-beta"),
        desc_node("ModuleShortDesc", "GustavX", "u-base"),
        desc_node("ModuleShortDesc", "Gamma", "u-gamma"),
    ]);
    let m = module_from_document(&doc).unwrap();
    assert_eq!(m.description.name, "Alpha");
    assert_eq!(m.description.folder, "AlphaFolder");
    assert_eq!(m.description.publish_handle, None);
    let names: Vec<&str> = m.dependencies.iter().map(|d| d.name.as_str()).collect();
    assert_eq!(names, vec!["Beta", "Gamma"]);
}

#[test]
fn module_without_dependency_list() {
    let mut doc = meta_doc(vec![]);
    let list = &mut doc.children[0].children[0].children[0];
    list.children[0].children.clear();
    let m = module_from_document(&doc).unwrap();
    assert!(m.dependencies.is_empty());
}

#[test]
fn module_malformed() {
    let mut doc = meta_doc(vec![]);
    let info = &mut doc.children[0].children[0].children[0].children[1];
    info.children.retain(|c| c.attrs[0].value != "UUID");
    assert!(matches!(module_from_document(&doc), Err(ArchiveError::MalformedDescriptor)));
    let empty = elem("save", vec![], vec![]);
    assert!(matches!(module_from_document(&empty), Err(ArchiveError::MalformedDescriptor)));
}

#[test]
fn descriptor_optional_handle() {
    let mut e = desc_node("ModuleInfo", "Alpha", "u1");
    e.children.push(prop("PublishHandle", "42"));
    let d = ModuleDescription::parse(&e).unwrap();
    assert_eq!(d.publish_handle.as_deref(), Some("42"));
    assert_eq!(ModuleDescription::get_attr(&e, "MD5"), Some("abc".to_string()));
    assert_eq!(ModuleDescription::get_attr(&e, "Nope"), None);
}
