use hyperpixel_init::devicetree::{
    find_host_peripheral_address, parse_cells, parse_ranges, translate_address, AddressRange,
    DeviceTree,
};
use hyperpixel_init::error::GpioError;
use hyperpixel_init::mapping::{gpiomem_request, mem_request, MapRequest, MemoryDevice};

fn be32(v: u32) -> Vec<u8> {
    v.to_be_bytes().to_vec()
}

fn be64(v: u64) -> Vec<u8> {
    v.to_be_bytes().to_vec()
}

fn tree(ranges: Vec<u8>) -> DeviceTree {
    DeviceTree {
        address_cells: Some(be32(2)),
        soc_address_cells: Some(be32(1)),
        soc_size_cells: Some(be32(1)),
        ranges: Some(ranges),
    }
}

#[test]
fn resolves_synthetic_metadata() {
    let mut ranges = be32(0x7e00_0000);
    ranges.extend(be64(0x3f00_0000));
    ranges.extend(be32(0x0100_0000));
    assert_eq!(find_host_peripheral_address(&tree(ranges)), Ok(0x3f20_0000));
}

#[test]
fn uncovered_target_is_not_found() {
    let mut ranges = be32(0x4000_0000);
    ranges.extend(be64(0xff80_0000));
    ranges.extend(be32(0x0080_0000));
    ranges.extend(be32(0x7e00_0000));
    ranges.extend(be64(0xfe00_0000));
    ranges.extend(be32(0x0010_0000));
    assert_eq!(find_host_peripheral_address(&tree(ranges)), Err(GpioError::AddressNotFound));
    assert_eq!(find_host_peripheral_address(&tree(vec![])), Err(GpioError::AddressNotFound));
}

#[test]
fn first_covering_record_wins() {
    let rs = vec![
        AddressRange { child: 0x7c00_0000, parent: 0xfc00_0000, length: 0x0400_0000 },
        AddressRange { child: 0x7e00_0000, parent: 0x3f00_0000, length: 0x0100_0000 },
    ];
    assert_eq!(translate_address(&rs, 0x7e20_0000), Ok(0xfe20_0000));
    // range end is exclusive, start inclusive
    let edge = vec![AddressRange { child: 0x7e20_0000, parent: 0x10, length: 1 }];
    assert_eq!(translate_address(&edge, 0x7e20_0000), Ok(0x10));
    let short = vec![AddressRange { child: 0x7e00_0000, parent: 0, length: 0x20_0000 }];
    assert_eq!(translate_address(&short, 0x7e20_0000), Err(GpioError::AddressNotFound));
}

#[test]
fn translation_overflow_is_malformed() {
    let rs = vec![AddressRange { child: 0x7e00_0000, parent: u64::MAX, length: 0x0100_0000 }];
    assert_eq!(translate_address(&rs, 0x7e20_0000), Err(GpioError::MetadataParse));
}

#[test]
fn absent_cell_entries_use_defaults() {
    // defaults: root 2, soc address 2, soc size 1
    let mut ranges = be64(0x7e00_0000);
    ranges.extend(be64(0xfe00_0000));
    ranges.extend(be32(0x0180_0000));
    let dt = DeviceTree { address_cells: None, soc_address_cells: None, soc_size_cells: None, ranges: Some(ranges) };
    assert_eq!(find_host_peripheral_address(&dt), Ok(0xfe20_0000));
}

#[test]
fn malformed_metadata_is_refused() {
    let dt = DeviceTree { address_cells: Some(vec![0, 2]), soc_address_cells: None, soc_size_cells: None, ranges: Some(vec![]) };
    assert_eq!(find_host_peripheral_address(&dt), Err(GpioError::MetadataParse));
    let dt = DeviceTree { address_cells: Some(be32(3)), soc_address_cells: None, soc_size_cells: None, ranges: Some(vec![0; 64]) };
    assert_eq!(find_host_peripheral_address(&dt), Err(GpioError::MetadataParse));
    let dt = DeviceTree { address_cells: None, soc_address_cells: None, soc_size_cells: None, ranges: None };
    assert_eq!(find_host_peripheral_address(&dt), Err(GpioError::MetadataParse));
}

#[test]
fn cells_are_big_endian() {
    assert_eq!(parse_cells(&[0x12, 0x34, 0x56, 0x78]), Ok(0x1234_5678));
    assert_eq!(parse_cells(&[0, 0, 0, 2, 9, 9]), Ok(2));
    assert_eq!(parse_cells(&[0, 0, 2]), Err(GpioError::MetadataParse));
}

#[test]
fn ranges_records_parse_in_order() {
    let mut bytes = be64(0x0102_0304_0506_0708);
    bytes.extend(be32(0x0a0b_0c0d));
    bytes.extend(be32(0x1000));
    bytes.extend(be64(0x99));
    bytes.extend(be32(0x11));
    bytes.extend(be32(0x22));
    bytes.extend(vec![0xff; 5]);
    let rs = parse_ranges(&bytes, 2, 1, 1).unwrap();
    assert_eq!(
        rs,
        vec![
            AddressRange { child: 0x0102_0304_0506_0708, parent: 0x0a0b_0c0d, length: 0x1000 },
            AddressRange { child: 0x99, parent: 0x11, length: 0x22 },
        ]
    );
    assert_eq!(parse_ranges(&bytes, 0, 1, 1), Err(GpioError::MetadataParse));
    assert_eq!(parse_ranges(&bytes, 1, 3, 1), Err(GpioError::MetadataParse));
    assert_eq!(parse_ranges(&bytes, 1, 1, 4), Err(GpioError::MetadataParse));
}

#[test]
fn map_requests() {
    assert_eq!(gpiomem_request(), MapRequest { device: MemoryDevice::GpioMem, offset: 0 });
    let mut ranges = be32(0x7e00_0000);
    ranges.extend(be64(0x3f00_0000));
    ranges.extend(be32(0x0100_0000));
    assert_eq!(
        mem_request(&tree(ranges)),
        Ok(MapRequest { device: MemoryDevice::Mem, offset: 0x3f40_0000 })
    );
    let mut ranges = be32(0x7e00_0000);
    ranges.extend(be64(u64::MAX - 0x20_0000 - 0x10));
    ranges.extend(be32(0x0100_0000));
    assert_eq!(mem_request(&tree(ranges)), Err(GpioError::Mapping));
}
