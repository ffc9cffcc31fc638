use chunk_store::errors::WorldError;
use chunk_store::palette::{decode_all, encode_all, PaletteType};

fn indirect(bits: u8, words: usize, palette: Vec<u32>) -> PaletteType {
    PaletteType::Indirect { bits_per_block: bits, data: vec![0; words], palette }
}

#[test]
fn single_reads_its_block_everywhere() {
    let palette = PaletteType::Single(9);
    assert_eq!(palette.get(0), Ok(9));
    assert_eq!(palette.get(4095), Ok(9));
    assert_eq!(palette.get(4096), Err(WorldError::InvalidBlockStateData));
}

#[test]
fn set_same_block_keeps_single() {
    let mut palette = PaletteType::Single(9);
    assert_eq!(palette.set(17, 9), Ok(()));
    assert_eq!(palette, PaletteType::Single(9));
}

#[test]
fn set_other_block_promotes_to_four_bits() {
    let mut palette = PaletteType::Single(0);
    assert_eq!(palette.set(0, 1), Ok(()));
    match &palette {
        PaletteType::Indirect { bits_per_block, data, palette } => {
            assert_eq!(*bits_per_block, 4);
            assert_eq!(data.len(), 256);
            assert_eq!(palette, &vec![0, 1]);
            assert_eq!(data[0], 1);
            assert!(data[1..].iter().all(|w| *w == 0));
        }
        other => panic!("not indirect: {:?}", other),
    }
    assert_eq!(palette.get(0), Ok(1));
    assert_eq!(palette.get(1), Ok(0));
    assert_eq!(palette.get(4095), Ok(0));
}

#[test]
fn seventeenth_block_widens_to_five_bits() {
    let mut palette = PaletteType::Single(100);
    for i in 1..16u32 {
        assert_eq!(palette.set(i as usize, 100 + i), Ok(()));
    }
    match &palette {
        PaletteType::Indirect { bits_per_block, data, palette } => {
            assert_eq!(*bits_per_block, 4);
            assert_eq!(data.len(), 256);
            assert_eq!(palette.len(), 16);
        }
        other => panic!("not indirect: {:?}", other),
    }
    assert_eq!(palette.set(16, 116), Ok(()));
    match &palette {
        PaletteType::Indirect { bits_per_block, data, palette } => {
            assert_eq!(*bits_per_block, 5);
            assert_eq!(data.len(), 320);
            assert_eq!(palette.len(), 17);
        }
        other => panic!("not indirect: {:?}", other),
    }
    for i in 0..17u32 {
        assert_eq!(palette.get(i as usize), Ok(100 + i));
    }
    assert_eq!(palette.get(17), Ok(100));
    assert_eq!(palette.get(4095), Ok(100));
}

#[test]
fn set_on_short_data_fails_and_changes_nothing() {
    let mut palette = indirect(4, 255, vec![0]);
    let before = palette.clone();
    assert_eq!(palette.set(0, 1), Err(WorldError::InvalidBlockStateData));
    assert_eq!(palette, before);
    let mut zero_bits = indirect(0, 256, vec![0]);
    assert_eq!(zero_bits.set(0, 1), Err(WorldError::InvalidBlockStateData));
    let mut fine = indirect(4, 256, vec![0]);
    assert_eq!(fine.set(4096, 1), Err(WorldError::InvalidBlockStateData));
    assert_eq!(fine.set(4095, 1), Ok(()));
}

#[test]
fn direct_is_not_handled() {
    let mut palette = PaletteType::Direct { bits_per_block: 15, data: vec![0; 960] };
    assert_eq!(palette.get(0), Err(WorldError::UnsupportedPalette));
    assert_eq!(palette.set(0, 1), Err(WorldError::UnsupportedPalette));
    assert_eq!(palette.resize(16), Err(WorldError::UnsupportedPalette));
    let before = palette.clone();
    assert_eq!(palette.compact(&vec![]), Ok(()));
    assert_eq!(palette, before);
}

#[test]
fn index_past_the_palette_is_not_found() {
    let mut palette = indirect(4, 256, vec![5, 6]);
    if let PaletteType::Indirect { data, .. } = &mut palette {
        data[0] = 0x2;
    }
    assert_eq!(palette.get(0), Err(WorldError::ChunkNotFound));
    assert_eq!(palette.get(1), Ok(5));
}

#[test]
fn read_on_short_data_fails() {
    let palette = indirect(4, 10, vec![5]);
    assert_eq!(palette.get(159), Ok(5));
    assert_eq!(palette.get(160), Err(WorldError::InvalidBlockStateData));
}

#[test]
fn resize_keeps_every_block() {
    let mut palette = PaletteType::Single(3);
    for i in 0..4096usize {
        assert_eq!(palette.set(i, 3 + (i % 7) as u32), Ok(()));
    }
    let before: Vec<u32> = (0..4096).map(|i| palette.get(i).unwrap()).collect();
    for width in [5usize, 13, 64, 3, 4] {
        assert_eq!(palette.resize(width), Ok(()));
        match &palette {
            PaletteType::Indirect { bits_per_block, data, .. } => {
                assert_eq!(*bits_per_block as usize, width);
                assert_eq!(data.len(), 64 * width);
            }
            other => panic!("not indirect: {:?}", other),
        }
        let after: Vec<u32> = (0..4096).map(|i| palette.get(i).unwrap()).collect();
        assert_eq!(after, before);
    }
}

#[test]
fn resize_too_narrow_fails_and_changes_nothing() {
    let mut palette = PaletteType::Single(3);
    for i in 0..4096usize {
        assert_eq!(palette.set(i, 3 + (i % 7) as u32), Ok(()));
    }
    let before = palette.clone();
    assert_eq!(palette.resize(2), Err(WorldError::InvalidBlockStateData));
    assert_eq!(palette, before);
    assert_eq!(palette.resize(0), Err(WorldError::InvalidBlockStateData));
    assert_eq!(palette.resize(65), Err(WorldError::InvalidBlockStateData));
    assert_eq!(palette, before);
}

#[test]
fn resize_of_single_makes_it_indirect() {
    let mut palette = PaletteType::Single(42);
    assert_eq!(palette.resize(6), Ok(()));
    assert_eq!(
        palette,
        PaletteType::Indirect { bits_per_block: 6, data: vec![0; 384], palette: vec![42] }
    );
    assert_eq!(palette.get(4095), Ok(42));
}

#[test]
fn compact_removes_entries_and_renumbers() {
    let mut palette = PaletteType::Single(10);
    assert_eq!(palette.set(1, 11), Ok(()));
    assert_eq!(palette.set(2, 12), Ok(()));
    assert_eq!(palette.set(3, 13), Ok(()));
    // take 11 out of use again
    assert_eq!(palette.set(1, 13), Ok(()));
    let before: Vec<u32> = (0..4096).map(|i| palette.get(i).unwrap()).collect();
    assert_eq!(palette.compact(&vec![true, false, true, true]), Ok(()));
    match &palette {
        PaletteType::Indirect { bits_per_block, data, palette } => {
            assert_eq!(*bits_per_block, 4);
            assert_eq!(palette, &vec![10, 12, 13]);
            // positions 0..4 held the slots 0, 3, 2, 3 and now hold 0, 2, 1, 2
            assert_eq!(data[0], 0x2120);
        }
        other => panic!("not indirect: {:?}", other),
    }
    let after: Vec<u32> = (0..4096).map(|i| palette.get(i).unwrap()).collect();
    assert_eq!(after, before);
}

#[test]
fn compact_to_one_entry_makes_it_single() {
    let mut palette = PaletteType::Single(10);
    assert_eq!(palette.set(1, 11), Ok(()));
    assert_eq!(palette.set(1, 10), Ok(()));
    assert_eq!(palette.compact(&vec![true, false]), Ok(()));
    assert_eq!(palette, PaletteType::Single(10));
}

#[test]
fn compact_narrows_the_width() {
    let mut palette = PaletteType::Single(0);
    for i in 1..=16u32 {
        assert_eq!(palette.set(i as usize, i), Ok(()));
    }
    assert_eq!(palette.set(16, 0), Ok(()));
    let mut keep = vec![true; 17];
    keep[16] = false;
    assert_eq!(palette.compact(&keep), Ok(()));
    match &palette {
        PaletteType::Indirect { bits_per_block, data, palette } => {
            assert_eq!(*bits_per_block, 4);
            assert_eq!(data.len(), 256);
            assert_eq!(palette.len(), 16);
        }
        other => panic!("not indirect: {:?}", other),
    }
    for i in 0..16u32 {
        assert_eq!(palette.get(i as usize), Ok(i));
    }
}

#[test]
fn compact_refuses_to_remove_an_entry_in_use() {
    let mut palette = PaletteType::Single(10);
    assert_eq!(palette.set(1, 11), Ok(()));
    let before = palette.clone();
    assert_eq!(palette.compact(&vec![true, false]), Err(WorldError::InvalidBlockStateData));
    assert_eq!(palette, before);
    assert_eq!(palette.compact(&vec![true]), Err(WorldError::InvalidBlockStateData));
    assert_eq!(palette, before);
}

#[test]
fn encode_then_decode_gives_the_values_back() {
    let values: Vec<u64> = (0..4096u64).map(|i| (i * 37) % 32).collect();
    let data = encode_all(&values, 5);
    assert_eq!(data.len(), 320);
    assert_eq!(decode_all(&data, 5), Ok(values));
    assert_eq!(decode_all(&data, 6), Err(WorldError::InvalidBlockStateData));
    assert_eq!(decode_all(&data, 0), Err(WorldError::InvalidBlockStateData));
}
