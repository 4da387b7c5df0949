use pullauta::io::heightmap::{heightmap_from_bytes, heightmap_to_bytes, HeightMapBits};

fn sample() -> HeightMapBits {
    HeightMapBits {
        xoffset_bits: 3.0f64.to_bits(),
        yoffset_bits: (-5.0f64).to_bits(),
        scale_bits: 1.5f64.to_bits(),
        width: 2,
        height: 2,
        cells: vec![1.0f64.to_bits(), 2.0f64.to_bits(), 3.0f64.to_bits(), 4.0f64.to_bits()],
    }
}

#[test]
fn test_bytes() {
    let hm = sample();
    let bytes = heightmap_to_bytes(&hm);
    assert_eq!(bytes.len(), 40 + 8 * 4);
    let back = heightmap_from_bytes(&bytes).unwrap();
    assert_eq!(f64::from_bits(back.xoffset_bits), 3.0);
    assert_eq!(f64::from_bits(back.yoffset_bits), -5.0);
    assert_eq!(f64::from_bits(back.scale_bits), 1.5);
    assert_eq!((back.width, back.height), (2, 2));
    let cells: Vec<f64> = back.cells.iter().map(|c| f64::from_bits(*c)).collect();
    assert_eq!(cells, vec![1.0, 2.0, 3.0, 4.0]);
}

#[test]
fn heightmap_fields_are_little_endian() {
    let bytes = heightmap_to_bytes(&sample());
    assert_eq!(&bytes[0..8], &3.0f64.to_bits().to_le_bytes());
    assert_eq!(&bytes[24..32], &2u64.to_le_bytes());
    assert_eq!(&bytes[64..72], &4.0f64.to_bits().to_le_bytes());
}

#[test]
fn truncated_heightmap_is_refused() {
    let bytes = heightmap_to_bytes(&sample());
    assert!(heightmap_from_bytes(&bytes[..39]).is_none());
    assert!(heightmap_from_bytes(&bytes[..bytes.len() - 1]).is_none());
    // bytes after the last cell are ignored
    let mut longer = bytes.clone();
    longer.push(7);
    assert!(heightmap_from_bytes(&longer).is_some());
}
