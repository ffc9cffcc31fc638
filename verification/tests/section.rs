use chunk_store::block::BlockData;
use chunk_store::block_counts::BlockCounts;
use chunk_store::block_states::BlockStates;
use chunk_store::chunk::Chunk;
use chunk_store::errors::WorldError;
use chunk_store::palette::PaletteType;
use chunk_store::registry::BlockRegistry;
use chunk_store::section::{block_index, section_index, Section};

fn stone() -> BlockData {
    BlockData::new("minecraft:stone")
}

fn dirt() -> BlockData {
    BlockData::new("minecraft:dirt")
}

fn air() -> BlockData {
    BlockData::default()
}

fn registry() -> BlockRegistry {
    let mut registry = BlockRegistry::new();
    registry.register(0, air());
    registry.register(1, stone());
    registry.register(2, dirt());
    registry.register(3, BlockData::new("minecraft:cave_air"));
    for i in 0..40u32 {
        registry.register(10 + i, BlockData::new(&format!("minecraft:wool_{}", i)));
    }
    registry
}

fn new_section() -> Section {
    let mut chunk = Chunk::new(0, 0, "overworld".to_string());
    chunk.sections.remove(0)
}

fn total(counts: &BlockCounts) -> u64 {
    counts.entries.iter().map(|(_, n)| *n as u64).sum()
}

#[test]
fn section_goes_indirect_and_back_to_single() {
    let registry = registry();
    let mut section = new_section();
    assert_eq!(section.block_states.block_data, PaletteType::Single(0));
    assert_eq!(section.block_states.block_counts.get(&air()), Some(4096));

    assert_eq!(section.set_block(&registry, 0, 0, 0, stone()), Ok(()));
    match &section.block_states.block_data {
        PaletteType::Indirect { bits_per_block, data, palette } => {
            assert_eq!(*bits_per_block, 4);
            assert_eq!(data.len(), 256);
            assert_eq!(palette, &vec![0, 1]);
        }
        other => panic!("not indirect: {:?}", other),
    }
    assert_eq!(section.block_states.block_counts.get(&air()), Some(4095));
    assert_eq!(section.block_states.block_counts.get(&stone()), Some(1));
    assert_eq!(section.block_states.block_counts.entries.len(), 2);
    assert_eq!(section.block_states.non_air_blocks, 1);

    for index in 1..4096i32 {
        let (x, y, z) = (index & 15, index >> 8, (index >> 4) & 15);
        assert_eq!(section.set_block(&registry, x, y, z, stone()), Ok(()));
    }
    assert_eq!(section.block_states.block_counts.get(&air()), Some(0));
    assert_eq!(section.block_states.block_counts.get(&stone()), Some(4096));
    assert_eq!(section.block_states.non_air_blocks, 4096);
    assert!(matches!(section.block_states.block_data, PaletteType::Indirect { .. }));

    assert_eq!(section.optimise(&registry), Ok(()));
    assert_eq!(section.block_states.block_data, PaletteType::Single(1));
    assert_eq!(section.block_states.block_counts.get(&stone()), Some(4096));
    assert_eq!(section.block_states.block_counts.get(&air()), None);
    assert_eq!(total(&section.block_states.block_counts), 4096);
    assert_eq!(section.block_states.non_air_blocks, 4096);
    assert_eq!(section.get_block(&registry, 3, 4, 5), Ok(stone()));
}

#[test]
fn positions_are_y_major() {
    assert_eq!(block_index(0, 0, 0), 0);
    assert_eq!(block_index(1, 0, 0), 1);
    assert_eq!(block_index(0, 0, 1), 16);
    assert_eq!(block_index(0, 1, 0), 256);
    assert_eq!(block_index(15, 15, 15), 4095);
    assert_eq!(block_index(3, 4, 5), 4 * 256 + 5 * 16 + 3);
    // only the place within the section counts
    assert_eq!(block_index(16 + 3, 32 + 4, 48 + 5), 4 * 256 + 5 * 16 + 3);
    assert_eq!(block_index(-1, -1, -1), 4095);
    assert_eq!(block_index(-16, -15, -14), 256 + 2 * 16);
    assert_eq!(block_index(i32::MIN, i32::MAX, 0), 15 * 256);
}

#[test]
fn heights_map_to_vertical_indices() {
    assert_eq!(section_index(0), 0);
    assert_eq!(section_index(15), 0);
    assert_eq!(section_index(16), 1);
    assert_eq!(section_index(383), 23);
    assert_eq!(section_index(-1), -1);
    assert_eq!(section_index(-16), -1);
    assert_eq!(section_index(-17), -2);
    assert_eq!(section_index(i32::MIN), -134217728);
}

#[test]
fn set_then_get_reads_the_last_block() {
    let registry = registry();
    let mut section = new_section();
    assert_eq!(section.set_block(&registry, 1, 2, 3, stone()), Ok(()));
    assert_eq!(section.set_block(&registry, 4, 5, 6, dirt()), Ok(()));
    assert_eq!(section.set_block(&registry, 1, 2, 3, dirt()), Ok(()));
    assert_eq!(section.set_block(&registry, 7, 7, 7, stone()), Ok(()));
    assert_eq!(section.get_block(&registry, 1, 2, 3), Ok(dirt()));
    assert_eq!(section.get_block(&registry, 4, 5, 6), Ok(dirt()));
    assert_eq!(section.get_block(&registry, 7, 7, 7), Ok(stone()));
    assert_eq!(section.get_block(&registry, 0, 0, 0), Ok(air()));
    assert_eq!(section.block_states.block_counts.get(&stone()), Some(1));
    assert_eq!(section.block_states.block_counts.get(&dirt()), Some(2));
    assert_eq!(section.block_states.block_counts.get(&air()), Some(4093));
    assert_eq!(total(&section.block_states.block_counts), 4096);
    assert_eq!(section.block_states.non_air_blocks, 3);
}

#[test]
fn setting_the_same_block_changes_nothing() {
    let registry = registry();
    let mut section = new_section();
    assert_eq!(section.set_block(&registry, 1, 2, 3, air()), Ok(()));
    assert_eq!(section.block_states.block_data, PaletteType::Single(0));
    assert_eq!(section.set_block(&registry, 1, 2, 3, stone()), Ok(()));
    let before = section.block_states.clone();
    assert_eq!(section.set_block(&registry, 1, 2, 3, stone()), Ok(()));
    assert_eq!(section.block_states.block_data, before.block_data);
    assert_eq!(section.block_states.block_counts.get(&stone()), Some(1));
    assert_eq!(section.block_states.block_counts.get(&air()), Some(4095));
}

#[test]
fn air_kinds_are_not_counted_as_blocks() {
    let registry = registry();
    let mut section = new_section();
    let cave_air = BlockData::new("minecraft:cave_air");
    assert_eq!(section.set_block(&registry, 0, 0, 0, cave_air.clone()), Ok(()));
    assert_eq!(section.block_states.non_air_blocks, 0);
    assert_eq!(section.set_block(&registry, 0, 0, 0, stone()), Ok(()));
    assert_eq!(section.block_states.non_air_blocks, 1);
    assert_eq!(section.set_block(&registry, 0, 0, 0, cave_air), Ok(()));
    assert_eq!(section.block_states.non_air_blocks, 0);
    assert_eq!(total(&section.block_states.block_counts), 4096);
}

#[test]
fn unknown_block_is_refused() {
    let registry = registry();
    let mut section = new_section();
    let unknown = BlockData::new("minecraft:unobtainium");
    assert_eq!(
        section.set_block(&registry, 0, 0, 0, unknown.clone()),
        Err(WorldError::InvalidBlock(unknown.clone()))
    );
    assert_eq!(section.block_states.block_data, PaletteType::Single(0));
    assert_eq!(section.block_states.block_counts.get(&air()), Some(4096));
    assert_eq!(section.fill(&registry, unknown.clone()), Err(WorldError::InvalidBlock(unknown)));
    assert_eq!(section.block_states.block_data, PaletteType::Single(0));
}

#[test]
fn count_at_zero_is_an_error_and_missing_count_is_not() {
    let registry = registry();
    let mut section = new_section();
    section.block_states.block_counts = BlockCounts { entries: vec![(air(), 0)] };
    assert_eq!(
        section.set_block(&registry, 0, 0, 0, stone()),
        Err(WorldError::InvalidBlock(air()))
    );
    assert_eq!(section.block_states.block_data, PaletteType::Single(0));
    assert_eq!(section.block_states.block_counts.get(&air()), Some(0));

    section.block_states.block_counts = BlockCounts { entries: vec![] };
    assert_eq!(section.set_block(&registry, 0, 0, 0, stone()), Ok(()));
    assert_eq!(section.block_states.block_counts.get(&air()), None);
    assert_eq!(section.block_states.block_counts.get(&stone()), Some(1));
    assert_eq!(section.get_block(&registry, 0, 0, 0), Ok(stone()));
}

#[test]
fn identifier_without_block_reads_as_air_or_fails() {
    let registry = registry();
    let single = BlockStates {
        non_air_blocks: 0,
        block_data: PaletteType::Single(999),
        block_counts: BlockCounts { entries: vec![] },
    };
    assert_eq!(single.get(&registry, 0), Err(WorldError::ChunkNotFound));
    let indirect = BlockStates {
        non_air_blocks: 0,
        block_data: PaletteType::Indirect {
            bits_per_block: 4,
            data: vec![0; 256],
            palette: vec![999],
        },
        block_counts: BlockCounts { entries: vec![] },
    };
    assert_eq!(indirect.get(&registry, 0), Ok(air()));
    assert_eq!(indirect.get(&registry, 4096), Err(WorldError::InvalidBlockStateData));
}

#[test]
fn fill_makes_every_position_the_block() {
    let registry = registry();
    let mut section = new_section();
    assert_eq!(section.set_block(&registry, 9, 9, 9, dirt()), Ok(()));
    assert_eq!(section.fill(&registry, stone()), Ok(()));
    assert_eq!(section.block_states.block_data, PaletteType::Single(1));
    assert_eq!(section.block_states.non_air_blocks, 4096);
    assert_eq!(section.block_states.block_counts.entries, vec![(stone(), 4096)]);
    for index in 0..4096usize {
        assert_eq!(section.block_states.get(&registry, index), Ok(stone()));
    }
    assert_eq!(section.fill(&registry, air()), Ok(()));
    assert_eq!(section.block_states.non_air_blocks, 0);
    assert_eq!(section.block_states.block_data, PaletteType::Single(0));
}

#[test]
fn optimise_keeps_every_block() {
    let registry = registry();
    let mut section = new_section();
    for i in 0..30i32 {
        let block = BlockData::new(&format!("minecraft:wool_{}", i));
        assert_eq!(section.set_block(&registry, i & 15, i >> 4, 0, block), Ok(()));
    }
    // take most of them out of use again
    for i in 5..30i32 {
        assert_eq!(section.set_block(&registry, i & 15, i >> 4, 0, stone()), Ok(()));
    }
    match &section.block_states.block_data {
        PaletteType::Indirect { bits_per_block, palette, .. } => {
            assert_eq!(*bits_per_block, 5);
            assert_eq!(palette.len(), 32);
        }
        other => panic!("not indirect: {:?}", other),
    }
    let before: Vec<BlockData> =
        (0..4096).map(|i| section.block_states.get(&registry, i).unwrap()).collect();
    assert_eq!(section.optimise(&registry), Ok(()));
    match &section.block_states.block_data {
        PaletteType::Indirect { bits_per_block, data, palette } => {
            assert_eq!(*bits_per_block, 4);
            assert_eq!(data.len(), 256);
            assert_eq!(palette, &vec![0, 10, 11, 12, 13, 14, 1]);
        }
        other => panic!("not indirect: {:?}", other),
    }
    let after: Vec<BlockData> =
        (0..4096).map(|i| section.block_states.get(&registry, i).unwrap()).collect();
    assert_eq!(after, before);
    assert_eq!(total(&section.block_states.block_counts), 4096);
    // a second pass has nothing left to do
    let settled = section.block_states.block_data.clone();
    assert_eq!(section.optimise(&registry), Ok(()));
    assert_eq!(section.block_states.block_data, settled);
}

#[test]
fn optimise_leaves_single_sections_alone() {
    let registry = registry();
    let mut section = new_section();
    assert_eq!(section.optimise(&registry), Ok(()));
    assert_eq!(section.block_states.block_data, PaletteType::Single(0));
    assert_eq!(section.block_states.block_counts.get(&air()), Some(4096));
}

#[test]
fn optimise_refuses_books_that_would_drop_a_block_in_use() {
    let registry = registry();
    let mut section = new_section();
    assert_eq!(section.set_block(&registry, 0, 0, 0, stone()), Ok(()));
    section.block_states.block_counts = BlockCounts { entries: vec![(air(), 4096)] };
    let before = section.block_states.block_data.clone();
    assert_eq!(section.optimise(&registry), Err(WorldError::InvalidBlockStateData));
    assert_eq!(section.block_states.block_data, before);
}

#[test]
fn resize_keeps_blocks_and_books() {
    let registry = registry();
    let mut section = new_section();
    assert_eq!(section.set_block(&registry, 1, 1, 1, stone()), Ok(()));
    assert_eq!(section.set_block(&registry, 2, 2, 2, dirt()), Ok(()));
    let before: Vec<BlockData> =
        (0..4096).map(|i| section.block_states.get(&registry, i).unwrap()).collect();
    assert_eq!(section.block_states.resize(9), Ok(()));
    let after: Vec<BlockData> =
        (0..4096).map(|i| section.block_states.get(&registry, i).unwrap()).collect();
    assert_eq!(after, before);
    assert_eq!(section.block_states.block_counts.get(&air()), Some(4094));
    assert_eq!(section.block_states.non_air_blocks, 2);
    assert_eq!(section.block_states.resize(1), Err(WorldError::InvalidBlockStateData));
    let again: Vec<BlockData> =
        (0..4096).map(|i| section.block_states.get(&registry, i).unwrap()).collect();
    assert_eq!(again, before);
}
