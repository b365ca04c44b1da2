//! The kinds of packet, and the short commands that set up and steer the
//! display.

use vstd::prelude::*;

use crate::util::{escape, escape_byte, escpae_bytes, lemma_escape_push};

verus! {

/// The lowest level of brightness and of speed that the display is sent.
pub const MIN_LEVEL: u8 = 0x10;

/// Whether the display is to be switched on or off.
pub enum AppStatus {
    On,
    Off,
}

/// The kinds of packet that the display knows. This library sends text,
/// pictures, animations, and the four commands mode, speed, brightness and
/// switch.
pub enum PacketType {
    Music,
    Text,
    Draw,
    Animate,
    Icon,
    Mode,
    Speed,
    Bright,
    Switch,
    Xfer,
}

/// The effects with which the display can show its content.
pub enum EffectsMode {
    Static,
    Left,
    Right,
    Up,
    Down,
    Snowflake,
    Picture,
    Lase,
}

impl AppStatus {
    /// The byte that stands for the status in a switch command: 1 for on, 0
    /// for off.
    pub open spec fn spec_code(self) -> u8 {
        match self {
            AppStatus::On => 1,
            AppStatus::Off => 0,
        }
    }

    /// The byte that stands for the status in a switch command.
    #[verifier::when_used_as_spec(spec_code)]
    pub fn code(self) -> (code: u8)
        ensures
            code == self.spec_code(),
    {
        match self {
            AppStatus::On => 1,
            AppStatus::Off => 0,
        }
    }
}

impl PacketType {
    /// The byte that stands for the kind of packet on the wire, from 1 for
    /// music to 10 for a transfer.
    pub open spec fn spec_code(self) -> u8 {
        match self {
            PacketType::Music => 1,
            PacketType::Text => 2,
            PacketType::Draw => 3,
            PacketType::Animate => 4,
            PacketType::Icon => 5,
            PacketType::Mode => 6,
            PacketType::Speed => 7,
            PacketType::Bright => 8,
            PacketType::Switch => 9,
            PacketType::Xfer => 10,
        }
    }

    /// The byte that stands for the kind of packet on the wire.
    #[verifier::when_used_as_spec(spec_code)]
    pub fn code(self) -> (code: u8)
        ensures
            code == self.spec_code(),
    {
        match self {
            PacketType::Music => 1,
            PacketType::Text => 2,
            PacketType::Draw => 3,
            PacketType::Animate => 4,
            PacketType::Icon => 5,
            PacketType::Mode => 6,
            PacketType::Speed => 7,
            PacketType::Bright => 8,
            PacketType::Switch => 9,
            PacketType::Xfer => 10,
        }
    }
}

impl EffectsMode {
    /// The byte that stands for the effect in a mode command, from 1 for
    /// static to 8 for the last.
    pub open spec fn spec_code(self) -> u8 {
        match self {
            EffectsMode::Static => 1,
            EffectsMode::Left => 2,
            EffectsMode::Right => 3,
            EffectsMode::Up => 4,
            EffectsMode::Down => 5,
            EffectsMode::Snowflake => 6,
            EffectsMode::Picture => 7,
            EffectsMode::Lase => 8,
        }
    }

    /// The byte that stands for the effect in a mode command.
    #[verifier::when_used_as_spec(spec_code)]
    pub fn code(self) -> (code: u8)
        ensures
            code == self.spec_code(),
    {
        match self {
            EffectsMode::Static => 1,
            EffectsMode::Left => 2,
            EffectsMode::Right => 3,
            EffectsMode::Up => 4,
            EffectsMode::Down => 5,
            EffectsMode::Snowflake => 6,
            EffectsMode::Picture => 7,
            EffectsMode::Lase => 8,
        }
    }
}

/// The level that is sent for a level asked for: the level itself, but no
/// less than `MIN_LEVEL`.
pub open spec fn clamped_level(level: u8) -> u8 {
    if level < MIN_LEVEL {
        MIN_LEVEL
    } else {
        level
    }
}

/// The frame of a command: the bytes 1, 0, 2, 6, the kind of the command,
/// its one byte of value in escaped form, and the end marker 3.
pub open spec fn command_frame(kind: PacketType, value: u8) -> Seq<u8> {
    seq![0x01u8, 0x00u8, 0x02u8, 0x06u8, kind.spec_code()] + escape_byte(value) + seq![0x03u8]
}

/// The frame of one packet of the initialization: the bytes 1, 0, 2, the
/// number of bytes of data in escaped form, the data in escaped form, and
/// the end marker 3.
pub open spec fn init_frame(data: Seq<u8>) -> Seq<u8> {
    seq![0x01u8, 0x00u8, 0x02u8] + escape_byte(data.len() as u8) + escape(data) + seq![0x03u8]
}

/// The data of the seven packets that initialize the display, in the order
/// in which they are sent.
pub open spec fn init_data() -> Seq<Seq<u8>> {
    seq![
        seq![0x32u8, 0x04u8, 0x00u8],
        seq![0x23u8, 0x01u8],
        seq![0x32u8, 0x02u8, 0x00u8],
        seq![0x34u8, 0x00u8],
        seq![0x30u8, 0x00u8],
        seq![0x31u8, 0x00u8],
        seq![0x32u8, 0x01u8, 0x00u8],
    ]
}

/// All the bytes of the initialization: the frames of the seven packets, one
/// after the other.
pub open spec fn init_packets() -> Seq<u8> {
    init_frame(init_data()[0]) + init_frame(init_data()[1]) + init_frame(init_data()[2])
        + init_frame(init_data()[3]) + init_frame(init_data()[4]) + init_frame(init_data()[5])
        + init_frame(init_data()[6])
}

/// Appends the packets that initialize the display to `out`. They are to be
/// sent once, after the display is connected by a serial line; over
/// Bluetooth the display needs none.
pub fn get_init_packets(out: &mut Vec<u8>)
    ensures
        final(out)@ == old(out)@ + init_packets(),
{
    let init1: [u8; 3] = [0x32, 0x04, 0x00];
    let init2: [u8; 2] = [0x23, 0x01];
    let init3: [u8; 3] = [0x32, 0x02, 0x00];
    let init4: [u8; 2] = [0x34, 0x00];
    let init5: [u8; 2] = [0x30, 0x00];
    let init6: [u8; 2] = [0x31, 0x00];
    let init7: [u8; 3] = [0x32, 0x01, 0x00];
    write_packet(out, &init1);
    write_packet(out, &init2);
    write_packet(out, &init3);
    write_packet(out, &init4);
    write_packet(out, &init5);
    write_packet(out, &init6);
    write_packet(out, &init7);
}

/// Appends the frame of one packet of the initialization to `out`.
fn write_packet(out: &mut Vec<u8>, data: &[u8])
    requires
        data@.len() <= 255,
    ensures
        final(out)@ == old(out)@ + init_frame(data@),
{
    out.push(0x01);
    out.push(0x00);

    //STX
    out.push(0x02);

    escpae_bytes(out, data.len() as u8);
    let ghost start = out@;

    let mut i: usize = 0;
    while i < data.len()
        invariant
            i <= data.len(),
            out@ == start + escape(data@.subrange(0, i as int)),
        decreases data.len() - i,
    {
        proof {
            lemma_escape_push(data@.subrange(0, i as int), data@[i as int]);
            assert(data@.subrange(0, i + 1) =~= data@.subrange(0, i as int).push(data@[i as int]));
        }
        escpae_bytes(out, data[i]);
        i += 1;
    }
    assert(data@.subrange(0, data@.len() as int) =~= data@);

    //ETX
    out.push(0x03);
}

/// Appends the frame of a command to `out`.
fn write_command(out: &mut Vec<u8>, kind: PacketType, value: u8)
    ensures
        final(out)@ == old(out)@ + command_frame(kind, value),
{
    out.push(0x01);
    out.push(0x00);
    //STX
    out.push(0x02);
    out.push(0x06);

    out.push(kind.code());

    escpae_bytes(out, value);

    //ETX
    out.push(0x03);
}

/// Appends the command that sets the brightness to `out`. A level under
/// `MIN_LEVEL` is sent as `MIN_LEVEL`.
pub fn write_bright(out: &mut Vec<u8>, bright: u8)
    ensures
        final(out)@ == old(out)@ + command_frame(PacketType::Bright, clamped_level(bright)),
{
    let bright_level = if bright < MIN_LEVEL {
        MIN_LEVEL
    } else {
        bright
    };
    write_command(out, PacketType::Bright, bright_level);
}

/// Appends the command that sets the speed of a text to `out`. A level under
/// `MIN_LEVEL` is sent as `MIN_LEVEL`.
pub fn write_speed(out: &mut Vec<u8>, speed: u8)
    ensures
        final(out)@ == old(out)@ + command_frame(PacketType::Speed, clamped_level(speed)),
{
    let speed_level = if speed < MIN_LEVEL {
        MIN_LEVEL
    } else {
        speed
    };
    write_command(out, PacketType::Speed, speed_level);
}

/// Appends the command that sets the effect of a text to `out`.
pub fn write_mode_led(out: &mut Vec<u8>, mode: EffectsMode)
    ensures
        final(out)@ == old(out)@ + command_frame(PacketType::Mode, mode.spec_code()),
{
    write_command(out, PacketType::Mode, mode.code());
}

/// Appends the command that switches the display on or off to `out`.
pub fn write_app_status(out: &mut Vec<u8>, status: AppStatus)
    ensures
        final(out)@ == old(out)@ + command_frame(PacketType::Switch, status.spec_code()),
{
    let data = match status {
        AppStatus::On => 0x1u8,
        AppStatus::Off => 0x0,
    };
    write_command(out, PacketType::Switch, data);
}

} // verus!
