//! Devices, and the geometry of disk images.
use pengwin::block_device::image_file::{image_sectors, sector_offset};
use pengwin::block_device::{
    read_block, read_sectors, write_block, write_sectors, BlockDevice, BlockDeviceError,
    MemoryDevice,
};

fn make_device(sectors: u64) -> MemoryDevice {
    let mut data = vec![0u8; (sectors * 512) as usize];
    for (i, b) in data.iter_mut().enumerate() {
        *b = (i % 256) as u8;
    }
    MemoryDevice::from_bytes(data)
}

#[test]
fn read_valid_sector() {
    let dev = make_device(4);
    let mut buf = [0u8; 512];
    dev.read_sector(1, &mut buf).unwrap();
    assert_eq!(buf[0], (512 % 256) as u8);
    assert_eq!(buf[1], (513 % 256) as u8);
}

#[test]
fn mod_read_out_of_bounds() {
    let dev = make_device(2);
    let mut buf = [0u8; 512];
    let err = dev.read_sector(2, &mut buf).unwrap_err();
    assert!(matches!(err, BlockDeviceError::OutOfRange(2, 2)));
}

#[test]
fn read_sectors_count_overflow() {
    let dev = make_device(4);
    let err = read_sectors(&dev, 0, u64::MAX).unwrap_err();
    assert!(matches!(err, BlockDeviceError::InvalidGeometry(_)));
}

#[test]
fn read_sectors_multi() {
    let dev = make_device(4);
    let data = read_sectors(&dev, 1, 3).unwrap();
    assert_eq!(data.len(), 3 * 512);
    assert_eq!(data[0], (512 % 256) as u8);
    assert_eq!(data[512], (1024 % 256) as u8);
    assert_eq!(data[1024], (1536 % 256) as u8);
}

#[test]
fn write_and_read_back() {
    let mut dev = make_device(4);
    let mut pattern = [0u8; 512];
    for (i, b) in pattern.iter_mut().enumerate() {
        *b = (i ^ 0xAA) as u8;
    }
    dev.write_sector(1, &pattern).unwrap();
    let mut buf = [0u8; 512];
    dev.read_sector(1, &mut buf).unwrap();
    assert_eq!(buf, pattern);
}

#[test]
fn write_out_of_bounds() {
    let mut dev = make_device(2);
    let buf = [0u8; 512];
    let err = dev.write_sector(2, &buf).unwrap_err();
    assert!(matches!(err, BlockDeviceError::OutOfRange(2, 2)));
}

#[test]
fn flush_succeeds() {
    let mut dev = make_device(2);
    dev.flush().unwrap();
}

#[test]
fn write_sectors_helper() {
    let mut dev = make_device(4);
    let data = vec![0xBBu8; 1024];
    write_sectors(&mut dev, 1, &data).unwrap();
    let mut buf = [0u8; 512];
    dev.read_sector(1, &mut buf).unwrap();
    assert!(buf.iter().all(|&b| b == 0xBB));
    dev.read_sector(2, &mut buf).unwrap();
    assert!(buf.iter().all(|&b| b == 0xBB));
}

#[test]
fn memory_device_bounds_check() {
    let data = vec![0xABu8; 1024];
    let dev = MemoryDevice::from_bytes(data);
    let mut buf = [0u8; 512];
    dev.read_sector(0, &mut buf).unwrap();
    assert_eq!(buf[0], 0xAB);

    let err = dev.read_sector(2, &mut buf).unwrap_err();
    assert!(matches!(err, BlockDeviceError::OutOfRange(2, 2)));
}

#[test]
fn open_valid_image() {
    assert_eq!(image_sectors(2048).unwrap(), 4);
}

#[test]
fn open_non_multiple() {
    let err = image_sectors(513).unwrap_err();
    assert!(matches!(err, BlockDeviceError::InvalidGeometry(513)));
}

#[test]
fn read_first_sector() {
    let sectors = image_sectors(2048).unwrap();
    assert_eq!(sector_offset(0, sectors).unwrap(), 0);
    let mut data = vec![0u8; 2048];
    for (i, b) in data[..512].iter_mut().enumerate() {
        *b = (i % 256) as u8;
    }
    let dev = MemoryDevice::from_bytes(data);
    let mut buf = [0u8; 512];
    dev.read_sector(0, &mut buf).unwrap();
    for i in 0..512 {
        assert_eq!(buf[i], (i % 256) as u8, "mismatch at byte {i}");
    }
}

#[test]
fn read_last_sector() {
    let sectors = image_sectors(2048).unwrap();
    assert_eq!(sector_offset(3, sectors).unwrap(), 1536);
    let mut data = vec![0u8; 2048];
    for (i, b) in data[1536..].iter_mut().enumerate() {
        *b = ((i + 1) % 256) as u8;
    }
    let dev = MemoryDevice::from_bytes(data);
    let mut buf = [0u8; 512];
    dev.read_sector(3, &mut buf).unwrap();
    assert_eq!(buf[0], 1);
    assert_eq!(buf[1], 2);
}

#[test]
fn image_file_read_out_of_bounds() {
    let sectors = image_sectors(2048).unwrap();
    let err = sector_offset(4, sectors).unwrap_err();
    assert!(matches!(err, BlockDeviceError::OutOfRange(4, 4)));
}

#[test]
fn blocks_are_runs_of_sectors() {
    let mut dev = make_device(16);
    write_block(&mut dev, 1024, 3, &[7u8; 1024]).unwrap();
    assert_eq!(read_block(&dev, 1024, 3).unwrap(), vec![7u8; 1024]);
    assert_eq!(read_sectors(&dev, 6, 2).unwrap(), vec![7u8; 1024]);
    assert_eq!(read_block(&dev, 1024, 2).unwrap()[0], 0);
    assert_eq!(dev.contents()[3072..4096], [7u8; 1024]);
    assert!(matches!(
        write_block(&mut dev, 1024, 8, &[7u8; 1024]),
        Err(BlockDeviceError::OutOfRange(16, 16))
    ));
    assert_eq!(MemoryDevice::new(3).sector_count(), 3);
}

#[test]
fn writing_stops_at_the_end_of_the_device() {
    let mut dev = make_device(4);
    let data: Vec<u8> = (0..3 * 512).map(|i| 100 + (i / 512) as u8).collect();
    assert!(write_sectors(&mut dev, 2, &data).is_err());
    // What came before the end is there.
    assert_eq!(dev.contents()[2 * 512..3 * 512], [100u8; 512]);
    assert_eq!(dev.contents()[3 * 512..4 * 512], [101u8; 512]);
}

#[test]
fn a_length_that_does_not_fit_is_refused() {
    let dev = make_device(4);
    let count = u64::MAX / 2;
    let r = read_sectors(&dev, 0, count);
    assert!(matches!(r, Err(BlockDeviceError::InvalidGeometry(n)) if n == count));
}
