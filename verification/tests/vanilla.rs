use chunk_store::block::BlockData;
use chunk_store::errors::WorldError;
use chunk_store::palette::PaletteType;
use chunk_store::registry::BlockRegistry;
use chunk_store::vanilla::{
    convert_section, VanillaBlockStates, VanillaChunk, VanillaHeightmaps, VanillaSection,
};

fn wool(i: usize) -> BlockData {
    BlockData::new(&format!("minecraft:wool_{}", i))
}

fn registry() -> BlockRegistry {
    let mut registry = BlockRegistry::new();
    registry.register(0, BlockData::default());
    for i in 0..40usize {
        registry.register(10 + i as u32, wool(i));
    }
    registry
}

/// Packs the indices as a world file does: no index crosses into the next long.
fn pack(indices: &[u64], bits: usize) -> Vec<i64> {
    let per_long = 64 / bits;
    let mut longs = vec![0u64; (indices.len() + per_long - 1) / per_long];
    for (i, index) in indices.iter().enumerate() {
        longs[i / per_long] |= index << ((i % per_long) * bits);
    }
    longs.into_iter().map(|w| w as i64).collect()
}

fn stored(y: i8, palette: Vec<BlockData>, data: Vec<i64>) -> VanillaSection {
    VanillaSection {
        y,
        block_states: Some(VanillaBlockStates { data: Some(data), palette: Some(palette) }),
        block_light: None,
        sky_light: None,
    }
}

#[test]
fn five_bit_indices_are_read_from_their_longs() {
    let registry = registry();
    let palette: Vec<BlockData> = (0..20).map(wool).collect();
    let indices: Vec<u64> = (0..4096u64).map(|i| (i * 7) % 20).collect();
    let data = pack(&indices, 5);
    assert_eq!(data.len(), 342);
    let section = convert_section(&registry, &stored(-3, palette, data)).unwrap();
    assert_eq!(section.y, -3);
    for i in 0..4096usize {
        let want = wool(indices[i] as usize);
        assert_eq!(section.block_states.get(&registry, i), Ok(want));
    }
    match &section.block_states.block_data {
        PaletteType::Indirect { bits_per_block, data, palette } => {
            assert_eq!(*bits_per_block, 5);
            assert_eq!(data.len(), 320);
            assert_eq!(palette.len(), 21);
        }
        other => panic!("not indirect: {:?}", other),
    }
    let total: u64 = section.block_states.block_counts.entries.iter().map(|(_, n)| *n as u64).sum();
    assert_eq!(total, 4096);
    assert_eq!(section.block_states.non_air_blocks, 4096);
    assert_eq!(section.block_states.block_counts.get(&wool(0)), Some(205));
    assert_eq!(section.block_states.block_counts.get(&wool(19)), Some(204));
}

#[test]
fn block_without_identifier_and_index_without_block_become_air() {
    let registry = registry();
    let palette = vec![wool(1), BlockData::new("minecraft:unobtainium"), wool(2)];
    let mut indices = vec![0u64; 4096];
    indices[1] = 1;
    indices[2] = 2;
    indices[3] = 9;
    let section = convert_section(&registry, &stored(0, palette, pack(&indices, 4))).unwrap();
    assert_eq!(section.block_states.get(&registry, 0), Ok(wool(1)));
    assert_eq!(section.block_states.get(&registry, 1), Ok(BlockData::default()));
    assert_eq!(section.block_states.get(&registry, 2), Ok(wool(2)));
    assert_eq!(section.block_states.get(&registry, 3), Ok(BlockData::default()));
    assert_eq!(section.block_states.get(&registry, 4), Ok(wool(1)));
    assert_eq!(section.block_states.non_air_blocks, 4094);
    assert_eq!(section.block_states.block_counts.get(&BlockData::default()), Some(2));
}

#[test]
fn section_without_data_is_air() {
    let registry = registry();
    let section = convert_section(&registry, &stored(4, vec![wool(3)], vec![])).unwrap();
    assert_eq!(section.block_states.block_data, PaletteType::Single(0));
    assert_eq!(section.block_states.non_air_blocks, 0);
    assert_eq!(section.block_states.block_counts.get(&BlockData::default()), Some(4096));
    let bare = VanillaSection { y: 5, block_states: None, block_light: None, sky_light: None };
    let section = convert_section(&registry, &bare).unwrap();
    assert_eq!(section.y, 5);
    assert_eq!(section.block_states.block_data, PaletteType::Single(0));
    assert_eq!(section.block_light, vec![0u8; 2048]);
    assert_eq!(section.sky_light, vec![0u8; 2048]);
    assert_eq!(section.biome_states.bits_per_biome, 4);
    assert!(section.biome_states.data.is_empty());
    assert_eq!(section.biome_states.palette, vec![0]);
}

#[test]
fn short_data_is_refused() {
    let registry = registry();
    let palette: Vec<BlockData> = (0..20).map(wool).collect();
    let short = convert_section(&registry, &stored(0, palette.clone(), vec![0; 341]));
    assert_eq!(short.err(), Some(WorldError::InvalidBlockStateData));
    assert!(convert_section(&registry, &stored(0, palette, vec![0; 342])).is_ok());
    let four_bits = convert_section(&registry, &stored(0, vec![wool(0)], vec![0; 255]));
    assert_eq!(four_bits.err(), Some(WorldError::InvalidBlockStateData));
    assert!(convert_section(&registry, &stored(0, vec![wool(0)], vec![0; 256])).is_ok());
}

#[test]
fn registry_without_air_at_zero_is_refused() {
    let mut registry = BlockRegistry::new();
    registry.register(0, wool(0));
    registry.register(1, BlockData::default());
    let result = convert_section(&registry, &stored(0, vec![wool(0)], vec![]));
    assert_eq!(result.err(), Some(WorldError::InvalidBlock(BlockData::default())));
}

#[test]
fn light_keeps_its_bits() {
    let registry = registry();
    let section = VanillaSection {
        y: 0,
        block_states: None,
        block_light: Some(vec![-1, 0, 127, -128, 0x12]),
        sky_light: Some(vec![-16; 2048]),
    };
    let section = convert_section(&registry, &section).unwrap();
    assert_eq!(section.block_light, vec![0xff, 0, 0x7f, 0x80, 0x12]);
    assert_eq!(section.sky_light, vec![0xf0u8; 2048]);
}

#[test]
fn chunk_is_converted_section_by_section() {
    let registry = registry();
    let mut indices = vec![0u64; 4096];
    indices[4095] = 1;
    let chunk = VanillaChunk {
        x_pos: 12,
        z_pos: -7,
        dimension: None,
        sections: Some(vec![
            stored(-1, vec![BlockData::default(), wool(5)], pack(&indices, 4)),
            stored(0, vec![], vec![]),
        ]),
        heightmaps: Some(VanillaHeightmaps {
            motion_blocking: Some(vec![1, -2, 3]),
            world_surface: None,
        }),
    };
    let converted = chunk.to_custom_format(&registry).unwrap();
    assert_eq!(converted.x, 12);
    assert_eq!(converted.z, -7);
    assert_eq!(converted.dimension, "overworld");
    assert_eq!(converted.heightmaps.motion_blocking, vec![1, -2, 3]);
    assert!(converted.heightmaps.world_surface.is_empty());
    assert_eq!(converted.sections.len(), 2);
    assert_eq!(converted.get_block(&registry, 15, -1, 15), Ok(wool(5)));
    assert_eq!(converted.get_block(&registry, 14, -1, 15), Ok(BlockData::default()));
    assert_eq!(converted.get_block(&registry, 0, 0, 0), Ok(BlockData::default()));
    assert_eq!(converted.get_block(&registry, 0, 16, 0), Err(WorldError::SectionOutOfBounds(1)));

    let named = VanillaChunk {
        x_pos: 0,
        z_pos: 0,
        dimension: Some("the_nether".to_string()),
        sections: Some(vec![]),
        heightmaps: None,
    };
    let converted = named.to_custom_format(&registry).unwrap();
    assert_eq!(converted.dimension, "the_nether");
    assert!(converted.sections.is_empty());
    assert!(converted.heightmaps.motion_blocking.is_empty());

    let broken = VanillaChunk {
        x_pos: 0,
        z_pos: 0,
        dimension: None,
        sections: Some(vec![stored(0, vec![], vec![]), stored(1, vec![wool(1)], vec![0; 3])]),
        heightmaps: None,
    };
    assert_eq!(
        broken.to_custom_format(&registry).err(),
        Some(WorldError::InvalidBlockStateData)
    );
}
