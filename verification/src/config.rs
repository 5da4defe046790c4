//! The configuration surface the pipeline consumes: which fields the
//! denoise transform strips at the chunk and level layers, and the run-time
//! defaults for denoising, aggressiveness and default restoration.
//!
//! Field names are carried as UTF-8 bytes, like every other key in the
//! library. Loading and saving a configuration file is the caller's
//! business; the core only needs the shape and the defaults below.

use vstd::prelude::*;
use crate::util::push_key;

verus! {

use vstd::string::StringSliceAdditionalSpecFns;

/// Run-time switches for an export.
pub struct ExportConfig {
    /// Denoise by default.
    pub denoise: bool,
    /// Use the aggressive field set by default.
    pub aggressive: bool,
    /// Drop records that keep no section and no block-entity data.
    pub skip_empty_chunks: bool,
}

/// Run-time switches for a restore.
pub struct RestoreConfig {
    /// Re-insert default values for stripped fields by default.
    pub restore_defaults: bool,
}

/// Chunk-layer denoise field groups.
pub struct ChunkDenoiseConfig {
    /// Fields stripped from every record.
    pub fields: Vec<Vec<u8>>,
    /// Fields stripped only in aggressive mode.
    pub aggressive_fields: Vec<Vec<u8>>,
}

/// Level-layer denoise field group.
pub struct LevelDenoiseConfig {
    /// Fields stripped from the level metadata.
    pub fields: Vec<Vec<u8>>,
    /// Force the weather state back to calm.
    pub reset_weather: bool,
}

/// Both denoise field groups together.
pub struct DenoiseConfig {
    pub chunk: ChunkDenoiseConfig,
    pub level: LevelDenoiseConfig,
}

/// The whole configuration.
pub struct Config {
    pub export: ExportConfig,
    pub restore: RestoreConfig,
    pub denoise: DenoiseConfig,
}

pub open spec fn spec_default_chunk_fields() -> Seq<Seq<u8>> {
    seq![
        "LastUpdate".spec_bytes(),
        "InhabitedTime".spec_bytes(),
        "blending_data".spec_bytes(),
        "PostProcessing".spec_bytes(),
        "isLightOn".spec_bytes(),
    ]
}

pub open spec fn spec_default_chunk_aggressive_fields() -> Seq<Seq<u8>> {
    seq!["Heightmaps".spec_bytes()]
}

pub open spec fn spec_default_level_fields() -> Seq<Seq<u8>> {
    seq![
        "Time".spec_bytes(),
        "DayTime".spec_bytes(),
        "LastPlayed".spec_bytes(),
        "thunderTime".spec_bytes(),
        "rainTime".spec_bytes(),
        "clearWeatherTime".spec_bytes(),
        "WanderingTraderSpawnChance".spec_bytes(),
        "WanderingTraderSpawnDelay".spec_bytes(),
        "WanderingTraderId".spec_bytes(),
        "ServerBrands".spec_bytes(),
        "WasModded".spec_bytes(),
    ]
}

impl Default for ExportConfig {
    /// Denoising on, aggressive off, empty records skipped.
    fn default() -> (r: Self)
        ensures
            r.denoise == true,
            r.aggressive == false,
            r.skip_empty_chunks == true,
    {
        ExportConfig { denoise: true, aggressive: false, skip_empty_chunks: true }
    }
}

impl Default for RestoreConfig {
    /// Default restoration on.
    fn default() -> (r: Self)
        ensures
            r.restore_defaults == true,
    {
        RestoreConfig { restore_defaults: true }
    }
}

impl Default for ChunkDenoiseConfig {
    /// The stock chunk-layer field lists.
    fn default() -> (r: Self)
        ensures
            r.fields.deep_view() == spec_default_chunk_fields(),
            r.aggressive_fields.deep_view() == spec_default_chunk_aggressive_fields(),
    {
        let mut fields: Vec<Vec<u8>> = Vec::new();
        push_key(&mut fields, "LastUpdate");
        push_key(&mut fields, "InhabitedTime");
        push_key(&mut fields, "blending_data");
        push_key(&mut fields, "PostProcessing");
        push_key(&mut fields, "isLightOn");
        let mut aggressive_fields: Vec<Vec<u8>> = Vec::new();
        push_key(&mut aggressive_fields, "Heightmaps");
        proof {
            assert(fields.deep_view() =~~= spec_default_chunk_fields());
            assert(aggressive_fields.deep_view() =~~= spec_default_chunk_aggressive_fields());
        }
        ChunkDenoiseConfig { fields, aggressive_fields }
    }
}

impl Default for LevelDenoiseConfig {
    /// The stock level-layer field list, with the weather reset on.
    fn default() -> (r: Self)
        ensures
            r.fields.deep_view() == spec_default_level_fields(),
            r.reset_weather == true,
    {
        let mut fields: Vec<Vec<u8>> = Vec::new();
        push_key(&mut fields, "Time");
        push_key(&mut fields, "DayTime");
        push_key(&mut fields, "LastPlayed");
        push_key(&mut fields, "thunderTime");
        push_key(&mut fields, "rainTime");
        push_key(&mut fields, "clearWeatherTime");
        push_key(&mut fields, "WanderingTraderSpawnChance");
        push_key(&mut fields, "WanderingTraderSpawnDelay");
        push_key(&mut fields, "WanderingTraderId");
        push_key(&mut fields, "ServerBrands");
        push_key(&mut fields, "WasModded");
        proof {
            assert(fields.deep_view() =~~= spec_default_level_fields());
        }
        LevelDenoiseConfig { fields, reset_weather: true }
    }
}

impl Default for DenoiseConfig {
    /// Both stock field groups.
    fn default() -> (r: Self)
        ensures
            r.chunk.fields.deep_view() == spec_default_chunk_fields(),
            r.chunk.aggressive_fields.deep_view() == spec_default_chunk_aggressive_fields(),
            r.level.fields.deep_view() == spec_default_level_fields(),
            r.level.reset_weather == true,
    {
        DenoiseConfig { chunk: ChunkDenoiseConfig::default(), level: LevelDenoiseConfig::default() }
    }
}

impl Default for Config {
    /// Every part at its stock value.
    fn default() -> (r: Self)
        ensures
            r.export.denoise == true,
            r.export.aggressive == false,
            r.export.skip_empty_chunks == true,
            r.restore.restore_defaults == true,
            r.denoise.chunk.fields.deep_view() == spec_default_chunk_fields(),
            r.denoise.chunk.aggressive_fields.deep_view() == spec_default_chunk_aggressive_fields(),
            r.denoise.level.fields.deep_view() == spec_default_level_fields(),
            r.denoise.level.reset_weather == true,
    {
        Config {
            export: ExportConfig::default(),
            restore: RestoreConfig::default(),
            denoise: DenoiseConfig::default(),
        }
    }
}

} // verus!
