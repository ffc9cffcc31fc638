use chunk_store::block::BlockData;
use chunk_store::chunk::Chunk;
use chunk_store::errors::WorldError;
use chunk_store::palette::PaletteType;
use chunk_store::registry::BlockRegistry;

fn stone() -> BlockData {
    BlockData::new("minecraft:stone")
}

fn air() -> BlockData {
    BlockData::default()
}

fn registry() -> BlockRegistry {
    let mut registry = BlockRegistry::new();
    registry.register(0, air());
    registry.register(1, stone());
    registry.register(2, BlockData::new("minecraft:dirt"));
    registry
}

#[test]
fn new_chunk_is_air_and_fully_lit() {
    let chunk = Chunk::new(3, -4, "overworld".to_string());
    assert_eq!(chunk.x, 3);
    assert_eq!(chunk.z, -4);
    assert_eq!(chunk.dimension, "overworld");
    assert_eq!(chunk.sections.len(), 24);
    assert!(chunk.heightmaps.motion_blocking.is_empty());
    assert!(chunk.heightmaps.world_surface.is_empty());
    for (i, section) in chunk.sections.iter().enumerate() {
        assert_eq!(section.y as usize, i);
        assert_eq!(section.block_states.block_data, PaletteType::Single(0));
        assert_eq!(section.block_states.non_air_blocks, 0);
        assert_eq!(section.block_states.block_counts.entries, vec![(air(), 4096)]);
        assert_eq!(section.block_light, vec![255u8; 2048]);
        assert_eq!(section.sky_light, vec![255u8; 2048]);
        assert_eq!(section.biome_states.bits_per_biome, 0);
        assert!(section.biome_states.data.is_empty());
        assert_eq!(section.biome_states.palette, vec![0]);
    }
    let registry = registry();
    assert_eq!(chunk.get_block(&registry, 0, 0, 0), Ok(air()));
    assert_eq!(chunk.get_block(&registry, 15, 383, 15), Ok(air()));
}

#[test]
fn height_without_section_is_out_of_bounds() {
    let registry = registry();
    let mut chunk = Chunk::new(0, 0, "overworld".to_string());
    assert_eq!(chunk.get_block(&registry, 0, 384, 0), Err(WorldError::SectionOutOfBounds(24)));
    assert_eq!(chunk.get_block(&registry, 0, -1, 0), Err(WorldError::SectionOutOfBounds(-1)));
    assert_eq!(chunk.get_block(&registry, 0, 4096, 0), Err(WorldError::SectionOutOfBounds(256)));
    assert_eq!(
        chunk.set_block(&registry, 0, 384, 0, stone()),
        Err(WorldError::SectionOutOfBounds(24))
    );
    assert_eq!(
        chunk.set_block(&registry, 0, -17, 0, stone()),
        Err(WorldError::SectionOutOfBounds(-2))
    );
    for section in &chunk.sections {
        assert_eq!(section.block_states.block_data, PaletteType::Single(0));
    }
}

#[test]
fn set_block_edits_one_section() {
    let registry = registry();
    let mut chunk = Chunk::new(0, 0, "overworld".to_string());
    assert_eq!(chunk.set_block(&registry, 1, 37, 2, stone()), Ok(()));
    assert_eq!(chunk.get_block(&registry, 1, 37, 2), Ok(stone()));
    assert_eq!(chunk.get_block(&registry, 1, 36, 2), Ok(air()));
    assert_eq!(chunk.get_block(&registry, 1, 21, 2), Ok(air()));
    // the coordinates count by their place in the section alone
    assert_eq!(chunk.get_block(&registry, 17, 37, 18), Ok(stone()));
    for (i, section) in chunk.sections.iter().enumerate() {
        if i == 2 {
            assert!(matches!(section.block_states.block_data, PaletteType::Indirect { .. }));
        } else {
            assert_eq!(section.block_states.block_data, PaletteType::Single(0));
        }
    }
}

#[test]
fn sections_are_found_by_vertical_index() {
    let registry = registry();
    let mut chunk = Chunk::new(0, 0, "overworld".to_string());
    chunk.sections.reverse();
    chunk.sections[0].y = -1;
    assert_eq!(chunk.set_block(&registry, 0, -1, 0, stone()), Ok(()));
    assert_eq!(chunk.get_block(&registry, 0, -1, 0), Ok(stone()));
    assert_eq!(chunk.sections[0].block_states.block_counts.get(&stone()), Some(1));
    assert_eq!(chunk.set_block(&registry, 0, 5, 0, stone()), Ok(()));
    assert_eq!(chunk.sections[23].y, 0);
    assert_eq!(chunk.sections[23].block_states.block_counts.get(&stone()), Some(1));
    assert_eq!(chunk.get_block(&registry, 0, 370, 0), Err(WorldError::SectionOutOfBounds(23)));
}

#[test]
fn last_set_wins_across_sections() {
    let registry = registry();
    let dirt = BlockData::new("minecraft:dirt");
    let mut chunk = Chunk::new(0, 0, "overworld".to_string());
    let edits = [
        ((0, 0, 0), stone()),
        ((0, 16, 0), dirt.clone()),
        ((0, 0, 0), dirt.clone()),
        ((5, 100, 5), stone()),
        ((0, 16, 0), air()),
        ((0, 0, 0), stone()),
    ];
    for ((x, y, z), block) in edits.iter() {
        assert_eq!(chunk.set_block(&registry, *x, *y, *z, block.clone()), Ok(()));
    }
    assert_eq!(chunk.get_block(&registry, 0, 0, 0), Ok(stone()));
    assert_eq!(chunk.get_block(&registry, 0, 16, 0), Ok(air()));
    assert_eq!(chunk.get_block(&registry, 5, 100, 5), Ok(stone()));
    assert_eq!(chunk.get_block(&registry, 1, 0, 0), Ok(air()));
}

#[test]
fn set_section_fills_one_section() {
    let registry = registry();
    let mut chunk = Chunk::new(0, 0, "overworld".to_string());
    assert_eq!(chunk.set_section(&registry, 3, stone()), Ok(()));
    assert_eq!(chunk.sections[3].block_states.block_data, PaletteType::Single(1));
    assert_eq!(chunk.sections[3].block_states.non_air_blocks, 4096);
    assert_eq!(chunk.sections[2].block_states.block_data, PaletteType::Single(0));
    assert_eq!(chunk.get_block(&registry, 7, 48, 7), Ok(stone()));
    assert_eq!(chunk.get_block(&registry, 7, 47, 7), Ok(air()));
    assert_eq!(chunk.set_section(&registry, 24, stone()), Err(WorldError::SectionOutOfBounds(24)));
    assert_eq!(chunk.set_section(&registry, 255, stone()), Err(WorldError::SectionOutOfBounds(255)));
    let unknown = BlockData::new("minecraft:unobtainium");
    assert_eq!(
        chunk.set_section(&registry, 0, unknown.clone()),
        Err(WorldError::InvalidBlock(unknown))
    );
    assert_eq!(chunk.sections[0].block_states.block_data, PaletteType::Single(0));
}

#[test]
fn fill_fills_every_section() {
    let registry = registry();
    let mut chunk = Chunk::new(0, 0, "overworld".to_string());
    assert_eq!(chunk.set_block(&registry, 1, 1, 1, stone()), Ok(()));
    assert_eq!(chunk.fill(&registry, BlockData::new("minecraft:dirt")), Ok(()));
    for section in &chunk.sections {
        assert_eq!(section.block_states.block_data, PaletteType::Single(2));
        assert_eq!(section.block_states.non_air_blocks, 4096);
    }
    let unknown = BlockData::new("minecraft:unobtainium");
    assert_eq!(chunk.fill(&registry, unknown.clone()), Err(WorldError::InvalidBlock(unknown.clone())));
    for section in &chunk.sections {
        assert_eq!(section.block_states.block_data, PaletteType::Single(2));
    }
    chunk.sections.clear();
    assert_eq!(chunk.fill(&registry, unknown), Ok(()));
}
