//! The sector cache.
use pengwin::block_device::{BlockDevice, BlockDeviceError, Bytes, MemoryDevice};
use pengwin::cache::CachedBlockDevice;

fn numbered(sectors: u64) -> MemoryDevice {
    let mut data = Vec::new();
    for i in 0..sectors {
        data.extend_from_slice(&[i as u8; 512]);
    }
    MemoryDevice::from_bytes(data)
}

#[test]
fn reads_are_those_of_the_device() {
    let mut cached = CachedBlockDevice::new(numbered(8), 2);
    let mut buf = [0u8; 512];
    for i in [0u64, 1, 2, 0, 7, 7, 1] {
        cached.read_sector(i, &mut buf).unwrap();
        assert_eq!(buf, [i as u8; 512]);
    }
    assert_eq!(cached.sector_count(), 8);
    assert!(matches!(
        cached.read_sector(8, &mut buf),
        Err(BlockDeviceError::OutOfRange(8, 8))
    ));
}

#[test]
fn writes_are_read_back() {
    let mut cached = CachedBlockDevice::new(numbered(4), 2);
    let mut buf = [0u8; 512];
    cached.read_sector(1, &mut buf).unwrap();
    cached.write_sector(1, &[9u8; 512]).unwrap();
    cached.read_sector(1, &mut buf).unwrap();
    assert_eq!(buf, [9u8; 512]);
    cached.read_sector(2, &mut buf).unwrap();
    cached.read_sector(3, &mut buf).unwrap();
    cached.read_sector(1, &mut buf).unwrap();
    assert_eq!(buf, [9u8; 512]);
    cached.flush().unwrap();
}

/// Serves a limited number of reads.
struct Tired {
    inner: MemoryDevice,
    left: std::sync::atomic::AtomicU32,
}

impl BlockDevice for Tired {
    // Only contracts speak of these three.
    fn bytes(&self) -> Bytes {
        unreachable!()
    }
    fn reliable(&self) -> bool {
        unreachable!()
    }
    fn synced(&self) -> bool {
        unreachable!()
    }
    fn read_sector(&self, i: u64, buf: &mut [u8; 512]) -> Result<(), BlockDeviceError> {
        if self.left.load(std::sync::atomic::Ordering::SeqCst) == 0 {
            return Err(BlockDeviceError::Io("tired".to_string()));
        }
        self.left.fetch_sub(1, std::sync::atomic::Ordering::SeqCst);
        self.inner.read_sector(i, buf)
    }
    fn sector_count(&self) -> u64 {
        self.inner.sector_count()
    }
    fn write_sector(&mut self, i: u64, buf: &[u8; 512]) -> Result<(), BlockDeviceError> {
        self.inner.write_sector(i, buf)
    }
    fn flush(&mut self) -> Result<(), BlockDeviceError> {
        self.inner.flush()
    }
}

#[test]
fn the_sectors_used_last_are_kept() {
    let dev = Tired { inner: numbered(8), left: std::sync::atomic::AtomicU32::new(4) };
    let mut cached = CachedBlockDevice::new(dev, 2);
    let mut buf = [0u8; 512];
    cached.read_sector(0, &mut buf).unwrap();
    cached.read_sector(1, &mut buf).unwrap();
    cached.read_sector(0, &mut buf).unwrap();
    // Sector 1 was used longest ago, and has to go.
    cached.read_sector(2, &mut buf).unwrap();
    cached.read_sector(0, &mut buf).unwrap();
    cached.read_sector(1, &mut buf).unwrap();
    assert_eq!(buf, [1u8; 512]);
    assert!(matches!(cached.read_sector(2, &mut buf), Err(BlockDeviceError::Io(_))));
    cached.read_sector(0, &mut buf).unwrap();
    assert_eq!(buf, [0u8; 512]);
}
