//! The SD card in SPI mode: command frames, the decisions of the card's
//! initialisation, and the decoding of its CSD and CID registers. The SPI
//! transfers themselves are the driver's: it performs each action the
//! initialisation asks for and hands back the card's answer.

use vstd::prelude::*;

verus! {

/// Data token start byte, Start Single Block Read
pub const SD_START_DATA_SINGLE_BLOCK_READ: u8 = 0xFE;

/// Bytes in a sector
pub const SEC_LEN: usize = 512;

/// How many times the initialisation asks the card to leave its idle
/// state, and to report its operating conditions, before it gives up
pub const INIT_TRIES: u32 = 255;

/// SD commands
#[derive(Clone, Copy, Debug, PartialEq, Eq, Structural)]
pub enum Cmd {
    /// Software reset
    CMD0,
    /// Check voltage range (SDC V2)
    CMD8,
    /// Read CSD register
    CMD9,
    /// Read CID register
    CMD10,
    /// Stop to read data
    CMD12,
    /// Change R/W block size
    CMD16,
    /// Read block
    CMD17,
    /// Read multiple blocks
    CMD18,
    /// Number of blocks to erase (SDC)
    ACMD23,
    /// Write a block
    CMD24,
    /// Write multiple blocks
    CMD25,
    /// Initiate initialization process (SDC)
    ACMD41,
    /// Leading command for ACMD
    CMD55,
    /// Read OCR
    CMD58,
    /// Enable/disable CRC check
    CMD59,
}

/// The number of command `c`
pub open spec fn cmd_number(c: Cmd) -> u8 {
    match c {
        Cmd::CMD0 => 0,
        Cmd::CMD8 => 8,
        Cmd::CMD9 => 9,
        Cmd::CMD10 => 10,
        Cmd::CMD12 => 12,
        Cmd::CMD16 => 16,
        Cmd::CMD17 => 17,
        Cmd::CMD18 => 18,
        Cmd::ACMD23 => 23,
        Cmd::CMD24 => 24,
        Cmd::CMD25 => 25,
        Cmd::ACMD41 => 41,
        Cmd::CMD55 => 55,
        Cmd::CMD58 => 58,
        Cmd::CMD59 => 59,
    }
}

/// Each command is sent with its own index, the number in its name (CMDk
/// and ACMDk go as k), and no two commands share an index.
pub proof fn lemma_cmd_numbers(a: Cmd, b: Cmd)
    ensures
        cmd_number(a) == cmd_number(b) ==> a == b,
        cmd_number(Cmd::CMD0) == 0,
        cmd_number(Cmd::CMD8) == 8,
        cmd_number(Cmd::CMD9) == 9,
        cmd_number(Cmd::CMD10) == 10,
        cmd_number(Cmd::CMD12) == 12,
        cmd_number(Cmd::CMD16) == 16,
        cmd_number(Cmd::CMD17) == 17,
        cmd_number(Cmd::CMD18) == 18,
        cmd_number(Cmd::ACMD23) == 23,
        cmd_number(Cmd::CMD24) == 24,
        cmd_number(Cmd::CMD25) == 25,
        cmd_number(Cmd::ACMD41) == 41,
        cmd_number(Cmd::CMD55) == 55,
        cmd_number(Cmd::CMD58) == 58,
        cmd_number(Cmd::CMD59) == 59,
{
}

impl Cmd {
    /// The command's number
    pub fn number(&self) -> (n: u8)
        ensures
            n == cmd_number(*self),
    {
        match self {
            Cmd::CMD0 => 0,
            Cmd::CMD8 => 8,
            Cmd::CMD9 => 9,
            Cmd::CMD10 => 10,
            Cmd::CMD12 => 12,
            Cmd::CMD16 => 16,
            Cmd::CMD17 => 17,
            Cmd::CMD18 => 18,
            Cmd::ACMD23 => 23,
            Cmd::CMD24 => 24,
            Cmd::CMD25 => 25,
            Cmd::ACMD41 => 41,
            Cmd::CMD55 => 55,
            Cmd::CMD58 => 58,
            Cmd::CMD59 => 59,
        }
    }
}

/// The six bytes that send command `cmd` with argument `arg` and check
/// byte `crc`: the command number with bit 6 set, the argument from its
/// most significant byte down, then `crc`
pub fn command_frame(cmd: Cmd, arg: u32, crc: u8) -> (f: Vec<u8>)
    ensures
        f@ == seq![
            cmd_number(cmd) | 0x40,
            (arg >> 24) as u8,
            ((arg >> 16) & 0xff) as u8,
            ((arg >> 8) & 0xff) as u8,
            (arg & 0xff) as u8,
            crc,
        ],
{
    let mut f: Vec<u8> = Vec::new();
    f.push(cmd.number() | 0x40);
    f.push((arg >> 24) as u8);
    f.push(((arg >> 16) & 0xff) as u8);
    f.push(((arg >> 8) & 0xff) as u8);
    f.push((arg & 0xff) as u8);
    f.push(crc);
    proof {
        assert(f@ =~= seq![
            cmd_number(cmd) | 0x40,
            (arg >> 24) as u8,
            ((arg >> 16) & 0xff) as u8,
            ((arg >> 8) & 0xff) as u8,
            (arg & 0xff) as u8,
            crc,
        ]);
    }
    f
}

/// Why the initialisation failed
#[derive(Clone, Copy, Debug)]
pub enum InitError {
    /// The card answered the command with this byte, not the one the
    /// initialisation waits for
    CMDFailed(Cmd, u8),
    /// The card's OCR does not report a high-capacity card
    CardCapacityStatusNotSet([u8; 4]),
    /// The card's registers could not be read
    CannotGetCardInfo,
}

/// Where the initialisation stands: which command the card is answering,
/// and, while the card is asked again and again, how many tries are left
#[derive(Clone, Copy, Debug, PartialEq, Eq, Structural)]
pub enum SdInitState {
    /// The card answers the software reset
    Reset,
    /// The card answers the voltage check
    CheckVoltage,
    /// The card answers the command that leads an application command
    AppCommand { tries_left: u32 },
    /// The card answers the request to leave its idle state
    OpCondition { tries_left: u32 },
    /// The card answers the request for its OCR
    ReadOcr { tries_left: u32 },
    /// The initialisation is over
    Done,
}

/// What the driver does next
#[derive(Clone, Copy, Debug)]
pub enum SdAction {
    /// Send command `cmd` with `arg` and `crc` (see [`command_frame`]),
    /// read the card's answer, and then, when `read_frame` holds, the four
    /// bytes that follow it; end the command and hand back what was read
    Send { cmd: Cmd, arg: u32, crc: u8, read_frame: bool },
    /// The card is ready: raise the clock and read its registers (see
    /// [`card_info`])
    ReadCardInfo,
    /// The initialisation failed
    Fail(InitError),
}

/// The action after which the driver asks for the request to leave the
/// idle state (once more)
pub open spec fn app_command_action() -> SdAction {
    SdAction::Send { cmd: Cmd::CMD55, arg: 0, crc: 0, read_frame: false }
}

/// The action after which the driver asks for the OCR (once more)
pub open spec fn read_ocr_action() -> SdAction {
    SdAction::Send { cmd: Cmd::CMD58, arg: 0, crc: 1, read_frame: true }
}

/// A bound on the steps the initialisation can still take from `state`:
/// every step that does not end it takes this down, so it ends.
pub open spec fn init_steps_left(state: SdInitState) -> nat {
    match state {
        SdInitState::Reset => 767,
        SdInitState::CheckVoltage => 766,
        SdInitState::AppCommand { tries_left } => (2 * tries_left + 255) as nat,
        SdInitState::OpCondition { tries_left } => (2 * tries_left + 254) as nat,
        SdInitState::ReadOcr { tries_left } => tries_left as nat,
        SdInitState::Done => 0,
    }
}

/// The first step of the initialisation, once the clock is slow and the
/// card has seen 80 clock cycles with chip select high: the software reset
pub fn init_start() -> (r: (SdInitState, SdAction))
    ensures
        r.0 == SdInitState::Reset,
        r.1 == (SdAction::Send { cmd: Cmd::CMD0, arg: 0, crc: 0x95, read_frame: false }),
{
    (SdInitState::Reset, SdAction::Send { cmd: Cmd::CMD0, arg: 0, crc: 0x95, read_frame: false })
}

/// The next step of the initialisation from `state`, given the card's
/// answer `response` to the last command and the four bytes `frame` read
/// after it (when the command asked for them). The reset and the voltage
/// check must be answered with 1 (idle); the card is then asked up to
/// [`INIT_TRIES`] times to leave its idle state (each time a leading
/// command answered with 1, then the request, answered with 0 once the card
/// is ready), and then up to as many times for its OCR (answered with 0),
/// whose first byte must have the capacity bit (0x40) set. A card that
/// never gets ready fails with the answer 1 of the voltage check.
pub fn init_step(state: SdInitState, response: u8, frame: [u8; 4]) -> (r: (SdInitState, SdAction))
    requires
        state != SdInitState::Done,
        state matches SdInitState::AppCommand { tries_left } ==> 0 < tries_left <= INIT_TRIES,
        state matches SdInitState::OpCondition { tries_left } ==> 0 < tries_left <= INIT_TRIES,
        state matches SdInitState::ReadOcr { tries_left } ==> 0 < tries_left <= INIT_TRIES,
    ensures
        r.0 matches SdInitState::AppCommand { tries_left } ==> 0 < tries_left <= INIT_TRIES,
        r.0 matches SdInitState::OpCondition { tries_left } ==> 0 < tries_left <= INIT_TRIES,
        r.0 matches SdInitState::ReadOcr { tries_left } ==> 0 < tries_left <= INIT_TRIES,
        r.0 != SdInitState::Done ==> init_steps_left(r.0) < init_steps_left(state),
        r == (match state {
            SdInitState::Reset => if response != 1 {
                (SdInitState::Done, SdAction::Fail(InitError::CMDFailed(Cmd::CMD0, response)))
            } else {
                (SdInitState::CheckVoltage, SdAction::Send { cmd: Cmd::CMD8, arg: 0x01AA, crc: 0x87, read_frame: true })
            },
            SdInitState::CheckVoltage => if response != 1 {
                (SdInitState::Done, SdAction::Fail(InitError::CMDFailed(Cmd::CMD8, response)))
            } else {
                (SdInitState::AppCommand { tries_left: INIT_TRIES }, app_command_action())
            },
            SdInitState::AppCommand { tries_left } => if response != 1 {
                (SdInitState::Done, SdAction::Fail(InitError::CMDFailed(Cmd::CMD55, response)))
            } else {
                (SdInitState::OpCondition { tries_left },
                    SdAction::Send { cmd: Cmd::ACMD41, arg: 0x4000_0000, crc: 0, read_frame: false })
            },
            SdInitState::OpCondition { tries_left } => if response == 0 {
                (SdInitState::ReadOcr { tries_left: INIT_TRIES }, read_ocr_action())
            } else if tries_left == 1 {
                (SdInitState::Done, SdAction::Fail(InitError::CMDFailed(Cmd::ACMD41, 1)))
            } else {
                (SdInitState::AppCommand { tries_left: (tries_left - 1) as u32 }, app_command_action())
            },
            SdInitState::ReadOcr { tries_left } => if response == 0 {
                if frame[0] & 0x40 == 0 {
                    (SdInitState::Done, SdAction::Fail(InitError::CardCapacityStatusNotSet(frame)))
                } else {
                    (SdInitState::Done, SdAction::ReadCardInfo)
                }
            } else if tries_left == 1 {
                (SdInitState::Done, SdAction::Fail(InitError::CMDFailed(Cmd::CMD58, 1)))
            } else {
                (SdInitState::ReadOcr { tries_left: (tries_left - 1) as u32 }, read_ocr_action())
            },
            SdInitState::Done => r,
        }),
{
    match state {
        SdInitState::Reset => {
            if response != 1 {
                (SdInitState::Done, SdAction::Fail(InitError::CMDFailed(Cmd::CMD0, response)))
            } else {
                (SdInitState::CheckVoltage, SdAction::Send { cmd: Cmd::CMD8, arg: 0x01AA, crc: 0x87, read_frame: true })
            }
        },
        SdInitState::CheckVoltage => {
            if response != 1 {
                (SdInitState::Done, SdAction::Fail(InitError::CMDFailed(Cmd::CMD8, response)))
            } else {
                (
                    SdInitState::AppCommand { tries_left: INIT_TRIES },
                    SdAction::Send { cmd: Cmd::CMD55, arg: 0, crc: 0, read_frame: false },
                )
            }
        },
        SdInitState::AppCommand { tries_left } => {
            if response != 1 {
                (SdInitState::Done, SdAction::Fail(InitError::CMDFailed(Cmd::CMD55, response)))
            } else {
                (
                    SdInitState::OpCondition { tries_left },
                    SdAction::Send { cmd: Cmd::ACMD41, arg: 0x4000_0000, crc: 0, read_frame: false },
                )
            }
        },
        SdInitState::OpCondition { tries_left } => {
            if response == 0 {
                (SdInitState::ReadOcr { tries_left: INIT_TRIES }, SdAction::Send { cmd: Cmd::CMD58, arg: 0, crc: 1, read_frame: true })
            } else if tries_left == 1 {
                (SdInitState::Done, SdAction::Fail(InitError::CMDFailed(Cmd::ACMD41, 1)))
            } else {
                (
                    SdInitState::AppCommand { tries_left: tries_left - 1 },
                    SdAction::Send { cmd: Cmd::CMD55, arg: 0, crc: 0, read_frame: false },
                )
            }
        },
        SdInitState::ReadOcr { tries_left } => {
            if response == 0 {
                if frame[0] & 0x40 == 0 {
                    (SdInitState::Done, SdAction::Fail(InitError::CardCapacityStatusNotSet(frame)))
                } else {
                    (SdInitState::Done, SdAction::ReadCardInfo)
                }
            } else if tries_left == 1 {
                (SdInitState::Done, SdAction::Fail(InitError::CMDFailed(Cmd::CMD58, 1)))
            } else {
                (SdInitState::ReadOcr { tries_left: tries_left - 1 }, SdAction::Send { cmd: Cmd::CMD58, arg: 0, crc: 1, read_frame: true })
            }
        },
        SdInitState::Done => (SdInitState::Done, SdAction::ReadCardInfo),
    }
}

/// Card Specific Data: CSD Register
#[derive(Clone, Copy, Debug, PartialEq, Eq, Structural)]
pub struct SDCardCSD {
    pub csd_struct: u8,
    pub sys_spec_version: u8,
    pub reserved1: u8,
    pub taac: u8,
    pub nsac: u8,
    pub max_bus_clk_frec: u8,
    pub card_comd_classes: u16,
    pub rd_block_len: u8,
    pub part_block_read: u8,
    pub wr_block_misalign: u8,
    pub rd_block_misalign: u8,
    pub dsr_impl: u8,
    pub reserved2: u8,
    pub device_size: u32,
    pub erase_gr_size: u8,
    pub erase_gr_mul: u8,
    pub wr_protect_gr_size: u8,
    pub wr_protect_gr_enable: u8,
    pub man_defl_ecc: u8,
    pub wr_speed_fact: u8,
    pub max_wr_block_len: u8,
    pub write_block_pa_partial: u8,
    pub reserved3: u8,
    pub content_protect_appli: u8,
    pub file_format_group: u8,
    pub copy_flag: u8,
    pub perm_wr_protect: u8,
    pub temp_wr_protect: u8,
    pub file_format: u8,
    pub ecc: u8,
    pub csd_crc: u8,
    pub reserved4: u8,
}

/// Card Identification: CID Register
#[derive(Clone, Copy, Debug, PartialEq, Eq, Structural)]
pub struct SDCardCID {
    pub manufacturer_id: u8,
    pub oem_appli_id: u16,
    pub prod_name1: u32,
    pub prod_name2: u8,
    pub prod_rev: u8,
    pub prod_sn: u32,
    pub reserved1: u8,
    pub manufact_date: u16,
    pub cid_crc: u8,
    pub reserved2: u8,
}

/// What the initialisation finds out about a card
#[derive(Clone, Copy, Debug, PartialEq, Eq, Structural)]
pub struct SDCardInfo {
    pub sd_csd: SDCardCSD,
    pub sd_cid: SDCardCID,
    /// Bytes the card holds
    pub card_capacity: u64,
    /// Bytes in one of its blocks
    pub card_block_size: u64,
}

/// The CSD register held in the 16 bytes of `t` (and two check bytes),
/// field by field as the SD specification lays it out (version 2: the
/// device size takes 22 bits)
pub open spec fn csd_of(t: [u8; 18]) -> SDCardCSD {
    SDCardCSD {
        csd_struct: (t[0] & 0xC0) >> 6,
        sys_spec_version: (t[0] & 0x3C) >> 2,
        reserved1: t[0] & 0x03,
        taac: t[1],
        nsac: t[2],
        max_bus_clk_frec: t[3],
        card_comd_classes: ((t[4] as u16) << 4) | (((t[5] as u16) & 0xF0) >> 4),
        rd_block_len: t[5] & 0x0F,
        part_block_read: (t[6] & 0x80) >> 7,
        wr_block_misalign: (t[6] & 0x40) >> 6,
        rd_block_misalign: (t[6] & 0x20) >> 5,
        dsr_impl: (t[6] & 0x10) >> 4,
        reserved2: 0,
        device_size: (((t[7] as u32) & 0x3F) << 16) | ((t[8] as u32) << 8) | (t[9] as u32),
        erase_gr_size: (t[10] & 0x40) >> 6,
        erase_gr_mul: ((t[10] & 0x3F) << 1) | ((t[11] & 0x80) >> 7),
        wr_protect_gr_size: t[11] & 0x7F,
        wr_protect_gr_enable: (t[12] & 0x80) >> 7,
        man_defl_ecc: (t[12] & 0x60) >> 5,
        wr_speed_fact: (t[12] & 0x1C) >> 2,
        max_wr_block_len: ((t[12] & 0x03) << 2) | ((t[13] & 0xC0) >> 6),
        write_block_pa_partial: (t[13] & 0x20) >> 5,
        reserved3: 0,
        content_protect_appli: t[13] & 0x01,
        file_format_group: (t[14] & 0x80) >> 7,
        copy_flag: (t[14] & 0x40) >> 6,
        perm_wr_protect: (t[14] & 0x20) >> 5,
        temp_wr_protect: (t[14] & 0x10) >> 4,
        file_format: (t[14] & 0x0C) >> 2,
        ecc: t[14] & 0x03,
        csd_crc: (t[15] & 0xFE) >> 1,
        reserved4: 1,
    }
}

/// The CID register held in the 16 bytes of `t` (and two check bytes)
pub open spec fn cid_of(t: [u8; 18]) -> SDCardCID {
    SDCardCID {
        manufacturer_id: t[0],
        oem_appli_id: ((t[1] as u16) << 8) | (t[2] as u16),
        prod_name1: ((t[3] as u32) << 24) | ((t[4] as u32) << 16) | ((t[5] as u32) << 8) | (t[6] as u32),
        prod_name2: t[7],
        prod_rev: t[8],
        prod_sn: ((t[9] as u32) << 24) | ((t[10] as u32) << 16) | ((t[11] as u32) << 8) | (t[12] as u32),
        reserved1: (t[13] & 0xF0) >> 4,
        manufact_date: (((t[13] as u16) & 0x0F) << 8) | (t[14] as u16),
        cid_crc: (t[15] & 0xFE) >> 1,
        reserved2: 1,
    }
}

/// Decode the CSD register read from the card
pub fn decode_csd(t: [u8; 18]) -> (c: SDCardCSD)
    ensures
        c == csd_of(t),
{
    SDCardCSD {
        csd_struct: (t[0] & 0xC0) >> 6,
        sys_spec_version: (t[0] & 0x3C) >> 2,
        reserved1: t[0] & 0x03,
        taac: t[1],
        nsac: t[2],
        max_bus_clk_frec: t[3],
        card_comd_classes: ((t[4] as u16) << 4) | (((t[5] as u16) & 0xF0) >> 4),
        rd_block_len: t[5] & 0x0F,
        part_block_read: (t[6] & 0x80) >> 7,
        wr_block_misalign: (t[6] & 0x40) >> 6,
        rd_block_misalign: (t[6] & 0x20) >> 5,
        dsr_impl: (t[6] & 0x10) >> 4,
        reserved2: 0,
        device_size: (((t[7] as u32) & 0x3F) << 16) | ((t[8] as u32) << 8) | (t[9] as u32),
        erase_gr_size: (t[10] & 0x40) >> 6,
        erase_gr_mul: ((t[10] & 0x3F) << 1) | ((t[11] & 0x80) >> 7),
        wr_protect_gr_size: t[11] & 0x7F,
        wr_protect_gr_enable: (t[12] & 0x80) >> 7,
        man_defl_ecc: (t[12] & 0x60) >> 5,
        wr_speed_fact: (t[12] & 0x1C) >> 2,
        max_wr_block_len: ((t[12] & 0x03) << 2) | ((t[13] & 0xC0) >> 6),
        write_block_pa_partial: (t[13] & 0x20) >> 5,
        reserved3: 0,
        content_protect_appli: t[13] & 0x01,
        file_format_group: (t[14] & 0x80) >> 7,
        copy_flag: (t[14] & 0x40) >> 6,
        perm_wr_protect: (t[14] & 0x20) >> 5,
        temp_wr_protect: (t[14] & 0x10) >> 4,
        file_format: (t[14] & 0x0C) >> 2,
        ecc: t[14] & 0x03,
        csd_crc: (t[15] & 0xFE) >> 1,
        reserved4: 1,
    }
}

/// Decode the CID register read from the card
pub fn decode_cid(t: [u8; 18]) -> (c: SDCardCID)
    ensures
        c == cid_of(t),
{
    SDCardCID {
        manufacturer_id: t[0],
        oem_appli_id: ((t[1] as u16) << 8) | (t[2] as u16),
        prod_name1: ((t[3] as u32) << 24) | ((t[4] as u32) << 16) | ((t[5] as u32) << 8) | (t[6] as u32),
        prod_name2: t[7],
        prod_rev: t[8],
        prod_sn: ((t[9] as u32) << 24) | ((t[10] as u32) << 16) | ((t[11] as u32) << 8) | (t[12] as u32),
        reserved1: (t[13] & 0xF0) >> 4,
        manufact_date: (((t[13] as u16) & 0x0F) << 8) | (t[14] as u16),
        cid_crc: (t[15] & 0xFE) >> 1,
        reserved2: 1,
    }
}

/// Whether a register read went through: the card accepted the command
/// (answer 0) and then sent the start token of a block
pub fn register_read_ok(answer: u8, token: u8) -> (b: bool)
    ensures
        b == (answer == 0 && token == SD_START_DATA_SINGLE_BLOCK_READ),
{
    answer == 0 && token == SD_START_DATA_SINGLE_BLOCK_READ
}

/// The information on a card whose CSD and CID registers were read as
/// `csd` and `cid` (`None` when a read did not go through): the decoded
/// registers, blocks of 2 to the power of the read block length, and a
/// capacity of the device size plus one, times 1024 blocks; the error that
/// the card information cannot be had when a read failed
pub fn card_info(csd: Option<[u8; 18]>, cid: Option<[u8; 18]>) -> (r: Result<SDCardInfo, InitError>)
    ensures
        (csd is None || cid is None) ==> r matches Err(InitError::CannotGetCardInfo),
        (csd is Some && cid is Some) ==> (r matches Ok(info) && {
            let c = csd_of(csd->0);
            &&& info.sd_csd == c
            &&& info.sd_cid == cid_of(cid->0)
            &&& info.card_block_size == vstd::arithmetic::power2::pow2(c.rd_block_len as nat)
            &&& info.card_capacity == (c.device_size + 1) * 1024 * info.card_block_size
        }),
{
    match (csd, cid) {
        (Some(a), Some(b)) => {
            let sd_csd = decode_csd(a);
            let sd_cid = decode_cid(b);
            let len = sd_csd.rd_block_len;
            let size = sd_csd.device_size;
            let ghost (b5, b7, b8, b9) = (a[5], a[7], a[8], a[9]);
            assert(len <= 15) by (bit_vector)
                requires len == b5 & 0x0F;
            assert(size < 0x40_0000) by (bit_vector)
                requires size == (((b7 as u32) & 0x3F) << 16) | ((b8 as u32) << 8) | (b9 as u32);
            let card_block_size: u64 = 1u64 << (len as u64);
            proof {
                vstd::arithmetic::power2::lemma_pow2_strictly_increases(len as nat, 16);
                vstd::arithmetic::power2::lemma2_to64();
                vstd::bits::lemma_u64_shl_is_mul(1, len as u64);
            }
            assert((size as u64 + 1) * 1024 * card_block_size <= 0x40_0000 * 1024 * 0x10000) by (nonlinear_arith)
                requires size < 0x40_0000, card_block_size < 0x10000;
            let card_capacity = (size as u64 + 1) * 1024 * card_block_size;
            Ok(SDCardInfo { sd_csd, sd_cid, card_capacity, card_block_size })
        },
        _ => Err(InitError::CannotGetCardInfo),
    }
}

} // verus!
