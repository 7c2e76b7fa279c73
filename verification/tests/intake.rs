//! Reading records, rows, names and listings.

use std::io::Write;

use flate2::write::GzEncoder;
use flate2::Compression;
use market_sim::dates::{civil_from_days, days_from_civil, run_timestamp};
use market_sim::inputs::binary_format::{
    decode_price, decode_qty_to_whole_units, decode_signed_price, parse_record, RECORD_SIZE,
};
use market_sim::inputs::download_cmd::{is_data_file, parse_xz_listing, Coin, DownloadTarget};
use market_sim::inputs::files::{extension_of, file_kind, is_supported_extension, sort_paths, FileKind};
use market_sim::inputs::progress::human_bytes;
use market_sim::inputs::scan_cmd::{classify, tally, Category, Tally};
use market_sim::inputs::simulator::{
    first_record, load_order_status_csv, looks_like_order_status_header, open_reader, parse_dataset_ts,
    parse_fixed_point, parse_row, round_to_unit, stream_binary, stream_csv, FileError, FileRecords, RunStats,
};
use market_sim::types::{Order, Side};

const HEADER: &str = "timestamp,userId,isBuilder,statusId,isAsk,limitPx,sz,oid,timestampDiff,triggerCondition,triggered,isTrigger,hasChildren,isPositionTpsl,reduceOnly,orderTypeId,tifId,triggerPx,origSz,status,orderType,tif";
const ROW: &str = "2025-12-01 11:59:59.897401610,237,False,1,False,126.67,5175.0,254384947819,0,0.0,False,False,False,False,False,0,0,0.0,5175.0,open,Limit,Alo";

fn sample_record() -> [u8; RECORD_SIZE] {
    [
        0x0a, 0xf9, 0xf2, 0x97, 0x9e, 0x15, 0x7d, 0x18, // ts
        0xed, 0x00, 0x00, 0x00, // userId = 237
        0x00, // isBuilder = false
        0x01, // statusId = open
        0x00, // isAsk = false (buy)
        0x7b, 0x31, 0x00, 0x40, // limitPx = 126.67
        0x26, 0xca, 0x00, 0x20, // sz = 5175.0
        0x6b, 0x42, 0x86, 0x3a, 0x3b, 0x00, 0x00, 0x00, // oid = 254384947819
        0x00, 0x00, 0x00, 0x00, // timestampDiff
        0x00, 0x00, 0x00, 0x00, // triggerCondition
        0x00, // triggered
        0x00, // isTrigger
        0x00, // hasChildren
        0x00, // isPositionTpsl
        0x00, // reduceOnly
        0x00, // orderTypeId = Limit
        0x00, // tifId = Alo
        0x00, 0x00, 0x00, 0x00, // triggerPx
        0x26, 0xca, 0x00, 0x20, // origSz = 5175.0
    ]
}

fn gzip(bytes: &[u8]) -> Vec<u8> {
    let mut encoder = GzEncoder::new(Vec::new(), Compression::default());
    encoder.write_all(bytes).unwrap();
    encoder.finish().unwrap()
}

#[test]
fn decodes_the_schema_worked_example() {
    let encoded = (2u32 << 29) | 9654321;
    assert_eq!(decode_price(encoded), 96_543_210_000);
}

#[test]
fn decode_price_handles_every_decimal_count() {
    assert_eq!(decode_price((0u32 << 29) | 127), 127_000_000);
    assert_eq!(decode_price((6u32 << 29) | 1), 1);
    assert_eq!(decode_price((7u32 << 29) | 15), 2);
    assert_eq!(decode_price((7u32 << 29) | 14), 1);
}

#[test]
fn decode_signed_price_respects_the_sign_bit() {
    let positive = (1u32 << 29) | 50;
    let negative = (1u32 << 29) | 0x1000_0000 | 50;
    assert_eq!(decode_signed_price(positive), 5_000_000);
    assert_eq!(decode_signed_price(negative), -5_000_000);
}

#[test]
fn decode_qty_rounds_to_whole_units() {
    assert_eq!(decode_qty_to_whole_units((2u32 << 29) | 3935), 39);
    assert_eq!(decode_qty_to_whole_units((1u32 << 29) | 395), 40);
}

#[test]
fn parse_record_decodes_a_realistic_record() {
    let mut bytes = [0u8; RECORD_SIZE];
    bytes[0..8].copy_from_slice(&1000u64.to_le_bytes());
    bytes[8..12].copy_from_slice(&237u32.to_le_bytes());
    bytes[12] = 0;
    bytes[13] = 1;
    bytes[14] = 0;
    bytes[15..19].copy_from_slice(&((2u32 << 29) | 12667).to_le_bytes());
    bytes[19..23].copy_from_slice(&((1u32 << 29) | 51750).to_le_bytes());
    bytes[23..31].copy_from_slice(&254384947819u64.to_le_bytes());
    bytes[44] = 0;
    bytes[45] = 0;
    bytes[50..54].copy_from_slice(&((1u32 << 29) | 51750).to_le_bytes());

    let order = parse_record(&bytes).expect("record should decode");
    assert_eq!(order.ts, 1000);
    assert_eq!(order.user_id, "237");
    assert_eq!(order.status_id, 1);
    assert!(!order.is_ask);
    assert_eq!(order.limit_px, 126_670_000);
    assert_eq!(order.oid, 254384947819);
    assert_eq!(order.remaining, 5175);
    assert!(order.is_new_live_order());
}

#[test]
fn parse_record_matches_real_sample_data_exactly() {
    let bytes = sample_record();
    let order = parse_record(&bytes).expect("real record should decode");
    assert_eq!(order.ts, 1_764_590_399_897_401_610);
    assert_eq!(order.user_id, "237");
    assert!(!order.is_builder);
    assert_eq!(order.status_id, 1);
    assert!(!order.is_ask);
    assert_eq!(order.limit_px, 126_670_000);
    assert_eq!(order.oid, 254384947819);
    assert_eq!(order.remaining, 5175);
    assert_eq!(order.order_type_id, 0);
    assert_eq!(order.tif_id, 0);
    assert!(order.is_new_live_order());
}

#[test]
fn parse_record_skips_zero_size_after_rounding() {
    let mut bytes = [0u8; RECORD_SIZE];
    bytes[13] = 1;
    bytes[50..54].copy_from_slice(&((1u32 << 29) | 2).to_le_bytes());
    assert!(parse_record(&bytes).is_none());
}

#[test]
fn a_record_and_its_row_give_the_same_order() {
    let from_bytes = parse_record(&sample_record()).unwrap();
    let from_text = parse_row(ROW).unwrap().unwrap();
    assert_eq!(from_bytes.ts, from_text.ts);
    assert_eq!(from_bytes.user_id, from_text.user_id);
    assert_eq!(from_bytes.limit_px, from_text.limit_px);
    assert_eq!(from_bytes.orig_sz, from_text.orig_sz);
    assert_eq!(from_bytes.oid, from_text.oid);
    assert_eq!(from_bytes.remaining, from_text.remaining);
}

fn read_plain(bytes: &[u8]) -> FileRecords {
    stream_binary(&open_reader(bytes.to_vec(), false), true)
}

fn read_packed(bytes: &[u8]) -> FileRecords {
    stream_binary(&open_reader(bytes.to_vec(), true), true)
}

#[test]
fn plain_and_compressed_records_read_alike() {
    let mut bytes: Vec<u8> = Vec::new();
    bytes.extend_from_slice(&sample_record());
    bytes.extend_from_slice(&[0u8; RECORD_SIZE]);
    bytes.extend_from_slice(&sample_record());

    let plain = read_plain(&bytes);
    let packed = read_packed(&gzip(&bytes));
    for read in [&plain, &packed] {
        assert_eq!(read.seen, 3);
        assert_eq!(read.skipped, 1);
        assert_eq!(read.orders.len(), 2);
        assert_eq!(read.orders[1].oid, 254384947819);
        assert_eq!(read.first_ts, Some(1_764_590_399_897_401_610));
        assert_eq!(read.error, None);
        assert!(!read.dropped);
    }

    // Members that follow each other are read as one.
    let mut members = gzip(&sample_record());
    members.extend(gzip(&sample_record()));
    assert_eq!(read_packed(&members).orders.len(), 2);
}

#[test]
fn unsound_files_are_read_up_to_the_fault() {
    let mut bytes: Vec<u8> = Vec::new();
    bytes.extend_from_slice(&sample_record());
    bytes.push(7);
    for read in [read_plain(&bytes), read_packed(&gzip(&bytes))] {
        assert_eq!(read.error, Some(FileError::Truncated));
        assert_eq!((read.orders.len(), read.seen, read.skipped), (1, 1, 0));
        assert_eq!(read.orders[0].oid, 254384947819);
        assert!(!read.dropped);
    }
    let read = read_packed(&[1, 2, 3]);
    assert_eq!((read.error, read.orders.len(), read.first_ts), (Some(FileError::Corrupt), 0, None));
    let mut cut = gzip(&sample_record());
    cut.truncate(20);
    assert_eq!(read_packed(&cut).error, Some(FileError::Corrupt));

    // The checksum of the second member is wrong: its data comes first.
    let mut members = gzip(&sample_record());
    members.extend(gzip(&sample_record()));
    let last = members.len() - 8;
    members[last] ^= 1;
    let read = read_packed(&members);
    assert_eq!((read.error, read.orders.len()), (Some(FileError::Corrupt), 2));

    let read = read_plain(&[]);
    assert_eq!((read.seen, read.error, read.dropped), (0, None, false));
    let read = read_plain(&[7; 53]);
    assert_eq!((read.seen, read.error, read.dropped), (0, Some(FileError::Truncated), false));
}

#[test]
fn a_file_with_an_implausible_first_record_is_dropped() {
    let mut bytes: Vec<u8> = Vec::new();
    bytes.extend_from_slice(&sample_record());
    bytes.extend_from_slice(&sample_record());
    let reader = open_reader(gzip(&bytes), true);
    assert_eq!(first_record(&reader), Some(sample_record()));
    let mut stats = RunStats::default();
    let read = stream_binary(&reader, false);
    assert!(read.dropped);
    assert_eq!((read.orders.len(), read.seen, read.skipped), (0, 0, 0));
    assert_eq!((read.first_ts, read.error), (None, None));
    stats.count_file(read.seen, read.skipped, read.dropped);
    assert_eq!((stats.files_processed, stats.files_skipped, stats.records_seen), (1, 1, 0));

    // What follows the first record does not count then.
    bytes.push(7);
    let read = stream_binary(&open_reader(bytes, false), false);
    assert_eq!((read.dropped, read.error), (true, None));

    // Without a whole record there is nothing to judge.
    let short = open_reader(vec![7; 53], false);
    assert_eq!(first_record(&short), None);
    assert_eq!(stream_binary(&short, false).error, Some(FileError::Truncated));
    assert!(!stream_binary(&open_reader(Vec::new(), false), false).dropped);
}

#[test]
fn a_line_that_is_not_text_ends_a_table() {
    let text = format!("{HEADER}\n{ROW}\n");
    let read = stream_csv(&text, false);
    assert_eq!((read.orders.len(), read.error), (1, Some(FileError::NotText)));
    assert_eq!(stream_csv(&text, true).error, None);
    let read = stream_csv("a,b,c\n", false);
    assert_eq!((read.dropped, read.error), (true, None));
}

#[test]
fn the_first_moment_is_that_of_a_row_without_an_order_too() {
    let nothing = ROW.replace("5175.0", "0.2").replace("11:59:59.897401610", "11:59:58");
    let text = format!("{HEADER}\nbroken\n\n{nothing}\n{ROW}\n");
    let read = load_order_status_csv(&text);
    assert_eq!((read.orders.len(), read.seen, read.skipped), (1, 2, 1));
    assert_eq!(read.first_ts, Some(1_764_590_398_000_000_000));
    assert_eq!(read.malformed, vec![2]);

    let mut bytes = vec![0u8; RECORD_SIZE];
    bytes[0] = 9;
    bytes.extend_from_slice(&sample_record());
    assert_eq!(read_plain(&bytes).first_ts, Some(9));
}

#[test]
fn simulator_parses_fixed_point_prices() {
    assert_eq!(parse_fixed_point("126.67"), Some(126_670_000));
    assert_eq!(parse_fixed_point("127"), Some(127_000_000));
    assert_eq!(parse_fixed_point("0.000001"), Some(1));
}

#[test]
fn simulator_rounds_quantities_to_whole_units() {
    assert_eq!(round_to_unit("39.35"), Some(39));
    assert_eq!(round_to_unit("39.5"), Some(40));
    assert_eq!(round_to_unit("5175.0"), Some(5175));
}

#[test]
fn simulator_parses_dataset_timestamps() {
    assert_eq!(parse_dataset_ts("2025-12-01 11:59:59.897401610"), Some(1_764_590_399_897_401_610));
    assert_eq!(parse_dataset_ts("2025-01-01 00:00:00.000000000"), Some(1_735_689_600_000_000_000));
}

#[test]
fn simulator_parses_a_real_preview_row_end_to_end() {
    let order = parse_row(ROW).expect("row should parse").expect("row should yield an order");
    assert_eq!(order.oid, 254384947819);
    assert_eq!(order.user_id, "237");
    assert_eq!(order.status_id, 1);
    assert!(!order.is_ask);
    assert_eq!(order.limit_px, 126_670_000);
    assert_eq!(order.remaining, 5175);
    assert!(order.is_new_live_order());
}

#[test]
fn a_table_without_its_header_is_dropped() {
    assert!(looks_like_order_status_header(HEADER));
    assert!(!looks_like_order_status_header("a,b,c"));
    let read = load_order_status_csv(&format!("a,b,c\n{ROW}\n"));
    assert!(read.dropped);
    assert_eq!(read.orders.len(), 0);

    let read = load_order_status_csv(&format!("{HEADER}\n{ROW}\nnonsense\n{ROW}\n"));
    assert!(!read.dropped);
    assert_eq!(read.orders.len(), 2);
    assert_eq!(read.skipped, 1);
    assert_eq!(read.malformed, vec![3]);
    assert!(!load_order_status_csv("").dropped);
}

#[test]
fn rows_with_too_few_columns_or_bad_numbers_are_malformed() {
    assert!(parse_row("1,2,3").is_err());
    assert!(parse_row(&ROW.replace("126.67", "abc")).is_err());
    assert!(parse_row(&ROW.replace("5175.0", "0.2")).unwrap().is_none());
    assert_eq!(parse_fixed_point("1.2.3"), None);
    assert_eq!(parse_fixed_point(""), None);
    assert_eq!(round_to_unit("x"), None);
    assert_eq!(parse_dataset_ts("2025-12-01"), None);
}

#[test]
fn counts_of_files_add_up() {
    let mut stats = RunStats::default();
    stats.count_file(10, 2, false);
    stats.count_file(0, 0, true);
    let mut other = RunStats::default();
    other.count_file(5, 1, false);
    stats.absorb(other);
    assert_eq!(stats, RunStats { files_processed: 3, files_skipped: 1, records_seen: 15, records_skipped: 3 });
}

#[test]
fn coin_labels_match_the_archive_filename_prefix() {
    assert_eq!(Coin::Btc.label(), "btc");
    assert_eq!(Coin::Eth.label(), "eth");
    assert_eq!(Coin::Sol.label(), "sol");
}

#[test]
fn builds_the_expected_zenodo_url_per_coin() {
    assert_eq!(Coin::Btc.url(), "https://zenodo.org/records/18184441/files/btc_orders_202512.tar.xz?download=1");
    assert_eq!(Coin::Eth.url(), "https://zenodo.org/records/18184441/files/eth_orders_202512.tar.xz?download=1");
    assert_eq!(Coin::Sol.url(), "https://zenodo.org/records/18184441/files/sol_orders_202512.tar.xz?download=1");
}

#[test]
fn all_returns_every_coin_exactly_once() {
    let all = Coin::all();
    assert_eq!(all.len(), 3);
    assert!(all.contains(&Coin::Btc));
    assert!(all.contains(&Coin::Eth));
    assert!(all.contains(&Coin::Sol));
    assert_eq!(DownloadTarget::All.coins(), all.to_vec());
    assert_eq!(DownloadTarget::Coin(Coin::Eth).coins(), vec![Coin::Eth]);
    assert_eq!(Coin::Sol.archive_filename(), "sol_orders_202512.tar.xz");
}

#[test]
fn an_xz_listing_gives_the_uncompressed_size() {
    let listing = "name\ta.tar.xz\nfile\t1\t10\t123\t456789\t0.1\tCRC64\t0\ntotals\t1\t10\t123\t456789\n";
    assert_eq!(parse_xz_listing(listing), Some(456789));
    assert_eq!(parse_xz_listing("file\t1\t2\n"), None);
    assert_eq!(parse_xz_listing(""), None);
}

#[test]
fn human_bytes_picks_the_largest_unit_that_stays_above_one() {
    assert_eq!(human_bytes(0), "0.00 B");
    assert_eq!(human_bytes(512), "512.00 B");
    assert_eq!(human_bytes(1536), "1.50 KiB");
    assert_eq!(human_bytes(6_615_982_080), "6.16 GiB");
}

#[test]
fn human_bytes_agrees_with_floating_point() {
    let units = ["B", "KiB", "MiB", "GiB", "TiB"];
    let mut samples: Vec<u64> = vec![0, 1, 1023, 1024, 1025, u64::MAX, u64::MAX - 1, (1 << 53) + 1];
    for shift in 0..64u32 {
        for d in [0u64, 1, 3, 511, 997] {
            samples.push((1u64 << shift).wrapping_add(d));
            samples.push((1u64 << shift).wrapping_sub(d));
            samples.push((0xDEAD_BEEF_1234_5679u64 >> shift).wrapping_add(d));
        }
    }
    for n in samples {
        let mut size = n as f64;
        let mut unit = 0;
        while size >= 1024.0 && unit < units.len() - 1 {
            size /= 1024.0;
            unit += 1;
        }
        assert_eq!(human_bytes(n), format!("{size:.2} {}", units[unit]), "n={n}");
    }
}

fn order_with_status(status_id: u8, is_trigger: bool, triggered: bool) -> Order {
    let mut o = Order::limit(1, "u", Side::Buy, 100, 1, 0);
    o.status_id = status_id;
    o.is_trigger = is_trigger;
    o.triggered = triggered;
    o
}

#[test]
fn classify_matches_what_the_engines_themselves_would_do() {
    assert_eq!(classify(&order_with_status(1, false, false)), Category::NewLiveOrder);
    assert_eq!(classify(&order_with_status(1, true, false)), Category::Other);
    assert_eq!(classify(&order_with_status(9, true, false)), Category::NewLiveOrder);
    assert_eq!(classify(&order_with_status(2, false, false)), Category::Cancellation);
    assert_eq!(classify(&order_with_status(5, false, false)), Category::Other);
    assert_eq!(classify(&order_with_status(0, false, false)), Category::Other);
}

#[test]
fn every_record_falls_in_one_category() {
    let orders: Vec<Order> = (0..12u8).map(|s| order_with_status(s, false, false)).collect();
    let counts: Tally = tally(&orders);
    assert_eq!(counts.new_live_orders + counts.cancellations + counts.other_events, 12);
    let live = orders.iter().filter(|o| classify(o) == Category::NewLiveOrder).count();
    assert_eq!(counts.new_live_orders, live);
}

#[test]
fn the_counts_of_two_files_add_up() {
    let first: Vec<Order> = [1u8, 2, 5].iter().map(|s| order_with_status(*s, false, false)).collect();
    let second: Vec<Order> = [2u8, 9, 0, 1].iter().map(|s| order_with_status(*s, false, false)).collect();
    let (a, b) = (tally(&first), tally(&second));
    let mut both: Vec<Order> = second;
    both.extend(first);
    let all = tally(&both);
    assert_eq!(all.new_live_orders, a.new_live_orders + b.new_live_orders);
    assert_eq!(all.cancellations, a.cancellations + b.cancellations);
    assert_eq!(all.other_events, a.other_events + b.other_events);
}

#[test]
fn civil_from_days_round_trips_known_dates() {
    assert_eq!(civil_from_days(20423), (2025, 12, 1));
    assert_eq!(civil_from_days(20089), (2025, 1, 1));
    assert_eq!(civil_from_days(0), (1970, 1, 1));
    for z in [-719_468i64, -1, 0, 59, 60, 20_423, 1_000_000] {
        let (y, m, d) = civil_from_days(z);
        assert_eq!(days_from_civil(y, m, d), z);
    }
}

#[test]
fn run_timestamp_has_the_expected_shape() {
    let ts = run_timestamp(1_764_590_399);
    assert_eq!(ts.len(), 15, "expected YYYYMMDD_HHMMSS, got '{ts}'");
    assert_eq!(ts.as_bytes()[8], b'_');
    assert!(ts.chars().enumerate().all(|(i, c)| i == 8 || c.is_ascii_digit()));
    assert_eq!(ts, "20251201_115959");
    assert_eq!(run_timestamp(0), "19700101_000000");
}

#[test]
fn files_are_read_by_extension_and_in_path_order() {
    assert_eq!(file_kind("sol_00.csv"), FileKind::Csv);
    assert_eq!(file_kind("sol_00.data.gz"), FileKind::Gzip);
    assert_eq!(file_kind("sol_00.data"), FileKind::Plain);
    assert_eq!(file_kind(".csv"), FileKind::Plain);
    assert_eq!(extension_of("a.b"), Some(vec!['b']));
    assert_eq!(extension_of("README"), None);
    assert!(is_supported_extension("x.gz"));
    assert!(!is_supported_extension("README.md"));
    assert!(is_data_file("btc_00.data"));
    assert!(!is_data_file("btc_00.csv"));

    let paths: Vec<String> = [
        "20251202/sol_00.data.gz",
        "20251201/sol_09_rejected.data.gz",
        "20251201/sol_00_rejected.data.gz",
        "20251201/sol_09.data.gz",
        "20251201/sol_00.data.gz",
    ]
    .iter()
    .map(|p| p.to_string())
    .collect();
    let order: Vec<&str> = sort_paths(&paths).iter().map(|i| paths[*i].as_str()).collect();
    assert_eq!(
        order,
        vec![
            "20251201/sol_00.data.gz",
            "20251201/sol_00_rejected.data.gz",
            "20251201/sol_09.data.gz",
            "20251201/sol_09_rejected.data.gz",
            "20251202/sol_00.data.gz",
        ]
    );
}
