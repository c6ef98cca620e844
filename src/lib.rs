//! Small utilities around one verified core: a single-pass aggregator of
//! per-station minimum, mean and maximum over `NAME;VALUE` lines, a
//! random-noise image generator, and the decisions of a fortune-telling chat bot.

pub mod decimal;
pub mod order;

pub mod accumulator;
pub mod laws;
pub mod measurement;
pub mod report;
pub mod shard;
pub mod source;
pub mod station;

pub mod color;
pub mod noise;
pub mod ppm;

pub mod bot;

pub use accumulator::{Accumulator, Overflow};
pub use decimal::{decimal_digits, push_decimal};
pub use measurement::{parse_line, parse_tenths, Measurement, ParseError};
pub use order::compare_bytes;
pub use shard::{aggregate_text, shard_bounds};
pub use source::{add_to_stations, aggregate_lines, LineError};
pub use station::{push_tenths, Station};

pub use color::{Palette, Rgb, Value};
pub use noise::{
    channel_from_random, pick_color, rgb_from_random, Noise, NoiseGenerator, NoiseRow, PaletteNoiseGenerator,
    RandomNoiseGenerator,
};
pub use ppm::{ppm_header, ppm_row, to_ppm, Image};

pub use bot::{
    command_scope, event_action, presence_for, route_command, split_lines, ActivityKind, BotCommand, CommandScope,
    EventAction, PresenceStatus,
};
