//! Chain tables: sorting, searching, the two codecs, and the directory
//! layout.

use hashattacks::hellman::codec::{from_json_bytes, to_json_bytes};
use hashattacks::hellman::table::{Chain, Table, TableNumber};
use hashattacks::hellman::tableio::{is_correct, parse_filename, table_filename, TableDirectory};

fn chain(first: Vec<u8>, last: Vec<u8>) -> Chain {
    Chain::new(first, last)
}

fn sample_table() -> Table {
    let mut table = Table::new(Vec::new(), vec![9, 8, 7]);
    table.push(chain(vec![1, 1], vec![3, 0]));
    table.push(chain(vec![2, 2], vec![0, 5]));
    table.push(chain(vec![3, 3], vec![2, 9]));
    table
}

fn assert_tables_equal(a: &Table, b: &Table) {
    assert_eq!(a.prefix(), b.prefix());
    assert_eq!(a.chain_count(), b.chain_count());
    for i in 0..a.chain_count() {
        assert_eq!(a.chain_at(i).0, b.chain_at(i).0);
        assert_eq!(a.chain_at(i).1, b.chain_at(i).1);
    }
}

#[test]
fn sort_orders_by_end_point() {
    let mut table = sample_table();
    table.sort();
    assert_eq!(table.chain_count(), 3);
    assert_eq!(table.chain_at(0).1, vec![0, 5]);
    assert_eq!(table.chain_at(1).1, vec![2, 9]);
    assert_eq!(table.chain_at(2).1, vec![3, 0]);
    // The start points travelled with their end points.
    assert_eq!(table.chain_at(0).0, vec![2, 2]);
}

#[test]
fn search_finds_only_present_end_points() {
    let mut table = sample_table();
    table.sort();
    let found = table.search_by_last_point(&vec![2, 9]).expect("end point is present");
    assert_eq!(found.0, vec![3, 3]);
    assert!(table.search_by_last_point(&vec![2, 8]).is_none());
    assert!(table.search_by_last_point(&vec![]).is_none());
}

#[test]
fn chain_from_bytes_splits_halves() {
    let parsed = Chain::from_bytes(&[1, 2, 3, 4, 5, 6]).expect("even length parses");
    assert_eq!(parsed.0, vec![1, 2, 3]);
    assert_eq!(parsed.1, vec![4, 5, 6]);
    assert!(Chain::from_bytes(&[1, 2, 3]).is_err());
}

#[test]
fn bin_codec_round_trip() {
    let table = sample_table();
    let data = table.to_bin_bytes().expect("nonempty table serialises");
    // Header: point size 2 (big-endian u16), count 3 (big-endian u32).
    assert_eq!(&data[0..6], &[0, 2, 0, 0, 0, 3]);
    let back = Table::from_bin_bytes(&data, usize::MAX).expect("own image parses");
    assert_tables_equal(&table, &back);
}

#[test]
fn bin_codec_truncated_read() {
    let table = sample_table();
    let data = table.to_bin_bytes().unwrap();
    let back = Table::from_bin_bytes(&data, 2).expect("smaller read is allowed");
    assert_eq!(back.chain_count(), 2);
    assert_eq!(back.chain_at(0).0, vec![1, 1]);
    assert_eq!(back.prefix(), table.prefix());
    assert!(matches!(
        Table::from_bin_bytes(&data, 4),
        Err("Table does not have enough chains")
    ));
}

#[test]
fn bin_codec_rejects_malformed_data() {
    assert!(Table::from_bin_bytes(&[0, 2, 0], usize::MAX).is_err());
    // Header promises more chain bytes than the data holds.
    assert!(Table::from_bin_bytes(&[0, 2, 0, 0, 0, 9, 1, 2], usize::MAX).is_err());
    // A zero point size is refused.
    assert!(Table::from_bin_bytes(&[0, 0, 0, 0, 0, 1], usize::MAX).is_err());
}

#[test]
fn empty_table_does_not_serialise_to_bin() {
    let table = Table::new(Vec::new(), vec![1]);
    assert!(matches!(table.to_bin_bytes(), Err("Table is empty")));
}

#[test]
fn json_codec_round_trip() {
    let table = sample_table();
    let data = to_json_bytes(&table);
    assert_eq!(
        String::from_utf8(data.clone()).unwrap(),
        "{\"chains\":[[[1,1],[3,0]],[[2,2],[0,5]],[[3,3],[2,9]]],\"prefix\":[9,8,7]}"
    );
    let back = from_json_bytes(&data).expect("own image parses");
    assert_tables_equal(&table, &back);
}

#[test]
fn json_codec_round_trip_empty_parts() {
    let table = Table::new(Vec::new(), Vec::new());
    let data = to_json_bytes(&table);
    assert_eq!(String::from_utf8(data.clone()).unwrap(), "{\"chains\":[],\"prefix\":[]}");
    let back = from_json_bytes(&data).expect("own image parses");
    assert_tables_equal(&table, &back);
}

#[test]
fn json_codec_matches_serde() {
    let table = sample_table();
    let ours = String::from_utf8(to_json_bytes(&table)).unwrap();
    let value: serde_json::Value = serde_json::from_str(&ours).expect("well-formed JSON");
    assert_eq!(value["chains"][2][0][1], serde_json::Value::from(3u64));
    assert_eq!(value["prefix"][0], serde_json::Value::from(9u64));
    // And a serde-rendered equivalent document is accepted byte for byte.
    let reprinted = serde_json::to_string(&value).expect("serialises");
    let back = from_json_bytes(reprinted.as_bytes()).expect("serde image parses");
    assert_tables_equal(&table, &back);
}

#[test]
fn json_codec_rejects_junk() {
    assert!(from_json_bytes(b"").is_err());
    assert!(from_json_bytes(b"{}").is_err());
    assert!(from_json_bytes(b"{\"chains\":[],\"prefix\":[]} ").is_err());
    assert!(from_json_bytes(b"{\"chains\":[],\"prefix\":[256]}").is_err());
    assert!(from_json_bytes(b"{\"chains\":[],\"prefix\":[01]}").is_err());
}

#[test]
fn format_dispatch() {
    let table = sample_table();
    let bin = table.to_bytes("bin").unwrap();
    let json = table.to_bytes("json").unwrap();
    assert!(matches!(table.to_bytes("xml"), Err("Invalid file format")));
    let from_bin = Table::from_bytes(&bin, "bin", usize::MAX).unwrap();
    let from_json = Table::from_bytes(&json, "json", usize::MAX).unwrap();
    assert_tables_equal(&from_bin, &from_json);
    assert!(matches!(
        Table::from_bytes(&bin, "xml", usize::MAX),
        Err("Invalid file format")
    ));
    let truncated = Table::from_bytes(&json, "json", 1).unwrap();
    assert_eq!(truncated.chain_count(), 1);
}

#[test]
fn table_number_views() {
    let execute = TableNumber::Execute(4, 2);
    assert_eq!(execute.on_disk(), 4);
    assert_eq!(execute.in_memory(), 2);
    let generate = TableNumber::Generate(7);
    assert_eq!(generate.on_disk(), 7);
    assert_eq!(generate.in_memory(), 0);
    assert_eq!(TableNumber::from(5usize).on_disk(), 5);
    assert_eq!(TableNumber::from((6usize, 3usize)).in_memory(), 3);
}

#[test]
fn directory_path_layout() {
    let directory = TableDirectory::new("tables", 2, 14, "bin");
    assert_eq!(directory.path(), "tables/2/14/bin");
    assert_eq!(directory.table_filepath(16384, 128, 3), "tables/2/14/bin/table-16384-128_3");
}

#[test]
fn filename_parse_and_filter() {
    assert_eq!(table_filename(100, 10, 4), "table-100-10_4");
    assert_eq!(parse_filename("table-100-10_4"), Ok((100, 10, 4)));
    assert!(parse_filename("junk.txt").is_err());
    assert!(parse_filename("table-abc-10_4").is_err());
    assert!(parse_filename("table-100-10").is_err());

    assert!(is_correct("table-100-10_4", 50, 10));
    assert!(is_correct("table-100-10_4", 100, 10));
    assert!(!is_correct("table-100-10_4", 200, 10));
    assert!(!is_correct("table-100-9_4", 50, 10));
    assert!(!is_correct("junk.txt", 50, 10));
}

#[test]
fn directory_filter_keeps_first_matching() {
    let directory = TableDirectory::new("root", 2, 14, "bin");
    let listing = vec![
        String::from("table-100-10_1"),
        String::from("table-30-10_2"),
        String::from("table-100-9_3"),
        String::from("junk.txt"),
        String::from("table-200-10_4"),
    ];
    let all = directory.read_table_filepaths(&listing, 50, 10, 5);
    assert_eq!(
        all,
        vec![
            String::from("root/2/14/bin/table-100-10_1"),
            String::from("root/2/14/bin/table-200-10_4"),
        ]
    );
    let first = directory.read_table_filepaths(&listing, 50, 10, 1);
    assert_eq!(first, vec![String::from("root/2/14/bin/table-100-10_1")]);
    let none = directory.read_table_filepaths(&listing, 300, 10, 5);
    assert!(none.is_empty());
}

#[test]
fn free_index_skips_taken_names() {
    let directory = TableDirectory::new("root", 2, 14, "bin");
    let listing = vec![
        String::from("table-100-10_1"),
        String::from("table-100-10_2"),
        String::from("table-100-10_4"),
    ];
    assert_eq!(directory.get_free_index(100, 10, 1, &listing), 3);
    assert_eq!(directory.get_free_index(100, 10, 4, &listing), 5);
    assert_eq!(directory.get_free_index(200, 10, 1, &listing), 1);
    assert_eq!(
        directory.get_free_filepath(100, 10, 1, &listing),
        "root/2/14/bin/table-100-10_3"
    );
}
