use vstd::prelude::*;
use crate::layout::bank_bytes;
use crate::layout::bank_lane;
use crate::layout::byte_order;
use crate::layout::order_bytes;
use crate::text::decode_pairs;
use crate::text::header_text;
use crate::text::lemma_records_round_trip;
use crate::text::records;
use crate::text::stream;
use crate::text::stream_text;
use crate::text::strip_layout;

verus! {

/// How a section is laid out as memory-image text.
#[derive(Clone, Copy, Debug)]
pub struct ExportConfig {
    /// Bytes per output line in single-stream mode.
    pub word_width: u8,
    /// Whether the digit pairs follow each other with no space between.
    pub packed: bool,
    /// Whether the byte order is reversed within each group of four.
    pub endianness_flip: bool,
    /// One for a single stream; more for that many interleaved lanes.
    pub bank_count: u32,
    /// Start of the region that lane directives are counted from.
    pub bank_base_offset: u64,
}

/// Why an export was refused.
#[derive(Clone, Copy, Debug, PartialEq, Eq, Structural)]
pub enum ExportError {
    /// The word width is zero.
    ZeroWordWidth,
    /// The bank count is zero.
    ZeroBankCount,
    /// In lane mode, the load address lies below the lane base.
    BelowBankBase,
    /// The section's byte range runs past the end of the data.
    RangeOutOfBounds,
}

/// The configuration fault that refuses an export, if any; faults are
/// checked in the order listed.
pub open spec fn config_fault(config: ExportConfig, load_address: u64) -> Option<ExportError> {
    if config.word_width == 0 {
        Some(ExportError::ZeroWordWidth)
    } else if config.bank_count == 0 {
        Some(ExportError::ZeroBankCount)
    } else if config.bank_count > 1 && load_address < config.bank_base_offset {
        Some(ExportError::BelowBankBase)
    } else {
        None
    }
}

/// The streams of an export with a sound configuration: one stream with the
/// width-scaled directive, lines wrapped at the word width; or one per lane,
/// each with the lane-relative directive and its lane's bytes on one line.
pub open spec fn export_streams(
    name: Seq<char>,
    load_address: u64,
    section: Seq<u8>,
    config: ExportConfig,
) -> Seq<Seq<char>> {
    let s = byte_order(section, config.endianness_flip);
    if config.bank_count == 1 {
        seq![
            stream_text(
                name,
                (load_address / (config.word_width as u64)) as u64,
                s,
                Some(config.word_width as usize),
                config.packed,
            ),
        ]
    } else {
        Seq::new(
            config.bank_count as nat,
            |b: int|
                stream_text(
                    name,
                    (load_address - config.bank_base_offset) as u64,
                    bank_bytes(s, config.bank_count as nat, b as nat),
                    None,
                    config.packed,
                ),
        )
    }
}

/// Whether `offset` and `size` select bytes that all lie within `len`.
pub open spec fn range_fits(len: nat, offset: u64, size: u64) -> bool {
    offset + size <= len
}

/// The address directive of a single stream: the load address counted in
/// words.
pub fn width_scaled_directive(load_address: u64, word_width: u8) -> (r: u64)
    requires
        word_width > 0,
    ensures
        r == load_address / (word_width as u64),
{
    load_address / (word_width as u64)
}

/// The address directive of every lane: the load address counted from the
/// lane base.
pub fn bank_relative_directive(load_address: u64, bank_base_offset: u64) -> (r: u64)
    requires
        load_address >= bank_base_offset,
    ensures
        r == load_address - bank_base_offset,
{
    load_address - bank_base_offset
}

/// The configuration fault that refuses an export, if any.
pub fn check_config(config: &ExportConfig, load_address: u64) -> (r: Option<ExportError>)
    ensures
        r == config_fault(*config, load_address),
{
    if config.word_width == 0 {
        Some(ExportError::ZeroWordWidth)
    } else if config.bank_count == 0 {
        Some(ExportError::ZeroBankCount)
    } else if config.bank_count > 1 && load_address < config.bank_base_offset {
        Some(ExportError::BelowBankBase)
    } else {
        None
    }
}

/// The memory-image text of a section, one string per output stream.
pub fn export_image(name: &str, load_address: u64, section: &[u8], config: &ExportConfig) -> (r:
    Result<Vec<String>, ExportError>)
    ensures
        match config_fault(*config, load_address) {
            Some(e) => r == Err::<Vec<String>, ExportError>(e),
            None => r is Ok && r->Ok_0.deep_view() == export_streams(
                name@,
                load_address,
                section@,
                *config,
            ),
        },
{
    if let Some(e) = check_config(config, load_address) {
        return Err(e);
    }
    let s = order_bytes(section, config.endianness_flip);
    let spec_streams = Ghost(export_streams(name@, load_address, section@, *config));
    let mut out: Vec<String> = Vec::new();
    if config.bank_count == 1 {
        let directive = width_scaled_directive(load_address, config.word_width);
        out.push(stream(name, directive, &s, Some(config.word_width as usize), config.packed));
    } else {
        let banks = config.bank_count as usize;
        let directive = bank_relative_directive(load_address, config.bank_base_offset);
        let mut b: usize = 0;
        while b < banks
            invariant
                b <= banks,
                banks == config.bank_count,
                banks > 1,
                directive == load_address - config.bank_base_offset,
                s@ == byte_order(section@, config.endianness_flip),
                spec_streams@ == export_streams(name@, load_address, section@, *config),
                out@.len() == b,
                forall|j: int| 0 <= j < b ==> #[trigger] out@[j]@ == spec_streams@[j],
            decreases banks - b,
        {
            let lane = bank_lane(&s, banks, b);
            out.push(stream(name, directive, &lane, None, config.packed));
            b = b + 1;
        }
    }
    assert(out.deep_view() =~= spec_streams@);
    Ok(out)
}

/// The memory-image text of the section that starts `offset` bytes into
/// `data` and runs `size` bytes, one string per output stream. The
/// configuration is checked first, the range after.
pub fn export_section(
    name: &str,
    load_address: u64,
    data: &[u8],
    offset: u64,
    size: u64,
    config: &ExportConfig,
) -> (r: Result<Vec<String>, ExportError>)
    ensures
        match config_fault(*config, load_address) {
            Some(e) => r == Err::<Vec<String>, ExportError>(e),
            None => if range_fits(data@.len(), offset, size) {
                r is Ok && r->Ok_0.deep_view() == export_streams(
                    name@,
                    load_address,
                    data@.subrange(offset as int, offset + size),
                    *config,
                )
            } else {
                r == Err::<Vec<String>, ExportError>(ExportError::RangeOutOfBounds)
            },
        },
{
    if let Some(e) = check_config(config, load_address) {
        return Err(e);
    }
    let len = data.len();
    if offset > len as u64 || size > len as u64 - offset {
        return Err(ExportError::RangeOutOfBounds);
    }
    let start = offset as usize;
    let end = start + size as usize;
    let section = &data[start..end];
    export_image(name, load_address, section, config)
}

/// Without a byte-order flip and with a single stream, the export is the
/// header followed by data whose digit pairs, read back with spaces and line
/// endings left out, are the section's bytes, whatever its length.
pub proof fn lemma_identity_round_trip(
    name: Seq<char>,
    load_address: u64,
    section: Seq<u8>,
    config: ExportConfig,
)
    requires
        config_fault(config, load_address) is None,
        !config.endianness_flip,
        config.bank_count == 1,
    ensures
        ({
            let streams = export_streams(name, load_address, section, config);
            let body = records(section, Some(config.word_width as usize), config.packed) + seq![
                '\n',
            ];
            &&& streams.len() == 1
            &&& streams[0] == header_text(
                name,
                (load_address / (config.word_width as u64)) as u64,
            ) + body
            &&& decode_pairs(strip_layout(body)) == section
        }),
{
    let body = records(section, Some(config.word_width as usize), config.packed) + seq!['\n'];
    let header = header_text(name, (load_address / (config.word_width as u64)) as u64);
    assert(header + records(section, Some(config.word_width as usize), config.packed) + seq!['\n']
        =~= header + body);
    lemma_records_round_trip(section, Some(config.word_width as usize), config.packed);
}

} // verus!
