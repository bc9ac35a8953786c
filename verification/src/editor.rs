use vstd::prelude::*;
use crate::color::Color;
use crate::command::Command;
use crate::command::CommandType;

verus! {

/// What a key of the keyboard, or a button that stands for it, asks for.
#[derive(Clone, Copy, Debug, PartialEq, Eq, Structural)]
pub enum KeyAction {
    OpenFile,
    SaveFile,
    MoveUp,
    MoveDown,
    MoveLeft,
    MoveRight,
    MoveForward,
    MoveBackward,
    ToggleVoxel,
    MoveSelectionLeft,
    MoveSelectionRight,
    MoveSelectionForward,
    MoveSelectionBackward,
    MoveSelectionUp,
    MoveSelectionDown,
    ToggleSelectionShape,
    ToggleFluid,
    ToggleShowGrid,
    ToggleNoise,
    MoreRed,
    MoreGreen,
    MoreBlue,
    MoreAlpha,
    LessRed,
    LessGreen,
    LessBlue,
    LessAlpha,
}

/// The action that the key with the given scan code asks for.
pub open spec fn spec_key_action(key: u32) -> Option<KeyAction> {
    if key == 1 {
        Some(KeyAction::OpenFile)
    } else if key == 2 {
        Some(KeyAction::SaveFile)
    } else if key == 16 {
        Some(KeyAction::MoveUp)
    } else if key == 18 {
        Some(KeyAction::MoveDown)
    } else if key == 30 || key == 105 {
        Some(KeyAction::MoveLeft)
    } else if key == 32 || key == 106 {
        Some(KeyAction::MoveRight)
    } else if key == 17 || key == 103 {
        Some(KeyAction::MoveForward)
    } else if key == 31 || key == 108 {
        Some(KeyAction::MoveBackward)
    } else if key == 57 {
        Some(KeyAction::ToggleVoxel)
    } else if key == 36 || key == 75 {
        Some(KeyAction::MoveSelectionLeft)
    } else if key == 38 || key == 77 {
        Some(KeyAction::MoveSelectionRight)
    } else if key == 23 || key == 72 {
        Some(KeyAction::MoveSelectionForward)
    } else if key == 37 || key == 76 {
        Some(KeyAction::MoveSelectionBackward)
    } else if key == 22 || key == 71 {
        Some(KeyAction::MoveSelectionUp)
    } else if key == 24 || key == 73 {
        Some(KeyAction::MoveSelectionDown)
    } else if key == 20 {
        Some(KeyAction::ToggleSelectionShape)
    } else if key == 33 {
        Some(KeyAction::ToggleFluid)
    } else if key == 34 {
        Some(KeyAction::ToggleShowGrid)
    } else if key == 49 {
        Some(KeyAction::ToggleNoise)
    } else if key == 59 {
        Some(KeyAction::MoreRed)
    } else if key == 60 {
        Some(KeyAction::MoreGreen)
    } else if key == 61 {
        Some(KeyAction::MoreBlue)
    } else if key == 62 {
        Some(KeyAction::MoreAlpha)
    } else if key == 63 {
        Some(KeyAction::LessRed)
    } else if key == 64 {
        Some(KeyAction::LessGreen)
    } else if key == 65 {
        Some(KeyAction::LessBlue)
    } else if key == 66 {
        Some(KeyAction::LessAlpha)
    } else {
        None
    }
}

/// Handle a key press: the action that the key with the given scan code
/// asks for, if it asks for any.
pub fn key_action(key: u32) -> (r: Option<KeyAction>)
    ensures
        r == spec_key_action(key),
{
    match key {
        1 => Some(KeyAction::OpenFile),
        2 => Some(KeyAction::SaveFile),
        // Q
        16 => Some(KeyAction::MoveUp),
        // E
        18 => Some(KeyAction::MoveDown),
        // A or LEFT
        30 | 105 => Some(KeyAction::MoveLeft),
        // D or RIGHT
        32 | 106 => Some(KeyAction::MoveRight),
        // W or UP
        17 | 103 => Some(KeyAction::MoveForward),
        // S or DOWN
        31 | 108 => Some(KeyAction::MoveBackward),
        // SPACEBAR
        57 => Some(KeyAction::ToggleVoxel),
        // 4 or J
        36 | 75 => Some(KeyAction::MoveSelectionLeft),
        // 6 or L
        38 | 77 => Some(KeyAction::MoveSelectionRight),
        // 8 or I
        23 | 72 => Some(KeyAction::MoveSelectionForward),
        // 5 or K
        37 | 76 => Some(KeyAction::MoveSelectionBackward),
        // 7 or U
        22 | 71 => Some(KeyAction::MoveSelectionUp),
        // 9 or O
        24 | 73 => Some(KeyAction::MoveSelectionDown),
        // T
        20 => Some(KeyAction::ToggleSelectionShape),
        // F
        33 => Some(KeyAction::ToggleFluid),
        // G
        34 => Some(KeyAction::ToggleShowGrid),
        // N
        49 => Some(KeyAction::ToggleNoise),
        59 => Some(KeyAction::MoreRed),
        60 => Some(KeyAction::MoreGreen),
        61 => Some(KeyAction::MoreBlue),
        62 => Some(KeyAction::MoreAlpha),
        63 => Some(KeyAction::LessRed),
        64 => Some(KeyAction::LessGreen),
        65 => Some(KeyAction::LessBlue),
        66 => Some(KeyAction::LessAlpha),
        _ => None,
    }
}

/// The commands that tell a palette what the current material is.
pub open spec fn spec_pick_material(color: Color, noise: bool, fluid: bool, palette: u32) -> Seq<
    Command,
> {
    seq![
        Command { command_type: CommandType::CurrentMaterialRed, data1: color[0], data2: palette },
        Command { command_type: CommandType::CurrentMaterialGreen, data1: color[1], data2: palette },
        Command { command_type: CommandType::CurrentMaterialBlue, data1: color[2], data2: palette },
        Command { command_type: CommandType::CurrentMaterialAlpha, data1: color[3], data2: palette },
        Command {
            command_type: CommandType::CurrentMaterialNoise,
            data1: if noise { 1u32 } else { 0u32 },
            data2: palette,
        },
        Command {
            command_type: CommandType::CurrentMaterialFluid,
            data1: if fluid { 1u32 } else { 0u32 },
            data2: palette,
        },
    ]
}

/// Answers a palette that asks for the current material: one command for
/// each channel of the colour, then one for the noise and one for the
/// fluid setting, each with the number of the palette.
pub fn handle_pick_material(color: &Color, noise: bool, fluid: bool, command: &Command) -> (out: Vec<
    Command,
>)
    ensures
        out@ == spec_pick_material(*color, noise, fluid, command.data2),
{
    let mut translated_commands: Vec<Command> = Vec::new();
    translated_commands.push(
        Command {
            command_type: CommandType::CurrentMaterialRed,
            data1: color[0],
            data2: command.data2,
        },
    );
    translated_commands.push(
        Command {
            command_type: CommandType::CurrentMaterialGreen,
            data1: color[1],
            data2: command.data2,
        },
    );
    translated_commands.push(
        Command {
            command_type: CommandType::CurrentMaterialBlue,
            data1: color[2],
            data2: command.data2,
        },
    );
    translated_commands.push(
        Command {
            command_type: CommandType::CurrentMaterialAlpha,
            data1: color[3],
            data2: command.data2,
        },
    );
    translated_commands.push(
        Command {
            command_type: CommandType::CurrentMaterialNoise,
            data1: if noise { 1 } else { 0 },
            data2: command.data2,
        },
    );
    translated_commands.push(
        Command {
            command_type: CommandType::CurrentMaterialFluid,
            data1: if fluid { 1 } else { 0 },
            data2: command.data2,
        },
    );
    proof {
        assert(translated_commands@ =~= spec_pick_material(*color, noise, fluid, command.data2));
    }
    translated_commands
}

/// The channel of the colour that a command updates, if it updates one.
pub open spec fn updated_channel(command_type: CommandType) -> Option<int> {
    match command_type {
        CommandType::UpdateCurrentMaterialRed => Some(0),
        CommandType::UpdateCurrentMaterialGreen => Some(1),
        CommandType::UpdateCurrentMaterialBlue => Some(2),
        CommandType::UpdateCurrentMaterialAlpha => Some(3),
        _ => None,
    }
}

/// The command that tells the sliders of a new value of a channel.
pub open spec fn set_material(channel: int, value: u32) -> Command {
    Command {
        command_type: if channel == 0 {
            CommandType::SetMaterialRed
        } else if channel == 1 {
            CommandType::SetMaterialGreen
        } else if channel == 2 {
            CommandType::SetMaterialBlue
        } else {
            CommandType::SetMaterialAlpha
        },
        data1: value,
        data2: channel as u32,
    }
}

/// Takes a new value for one channel of the current colour from a
/// command that updates the material, and tells the sliders of it. Any
/// other command changes nothing and gives no command.
pub fn update_current_material(color: &mut Color, command: &Command) -> (out: Vec<Command>)
    ensures
        match updated_channel(command.command_type) {
            Some(channel) => final(color)@ == old(color)@.update(channel, command.data1) && out@
                == seq![set_material(channel, command.data1)],
            None => *final(color) == *old(color) && out@.len() == 0,
        },
{
    let mut translated_commands: Vec<Command> = Vec::new();
    let (channel, command_type): (usize, CommandType) = match command.command_type {
        CommandType::UpdateCurrentMaterialRed => (0, CommandType::SetMaterialRed),
        CommandType::UpdateCurrentMaterialGreen => (1, CommandType::SetMaterialGreen),
        CommandType::UpdateCurrentMaterialBlue => (2, CommandType::SetMaterialBlue),
        CommandType::UpdateCurrentMaterialAlpha => (3, CommandType::SetMaterialAlpha),
        _ => {
            return translated_commands;
        },
    };
    color[channel] = command.data1;
    translated_commands.push(
        Command { command_type, data1: command.data1, data2: channel as u32 },
    );
    proof {
        assert(translated_commands@ =~= seq![set_material(channel as int, command.data1)]);
    }
    translated_commands
}

/// What decides whether a frame is drawn: whether anything changed,
/// whether the scene is loading, whether a frame is being drawn, and how
/// many calls are still passed over before the time is looked at.
#[derive(Clone, Copy, Debug, PartialEq, Eq)]
pub struct Throttle {
    pub dirty: bool,
    pub loading: bool,
    pub drawing: bool,
    pub throttle: u32,
    pub target_fps: u32,
}

impl Throttle {
    /// The state a scene starts in.
    pub fn new() -> (r: Throttle)
        ensures
            r == (Throttle { dirty: true, loading: true, drawing: false, throttle: 10, target_fps: 30 }),
    {
        Throttle { dirty: true, loading: true, drawing: false, throttle: 10, target_fps: 30 }
    }

    /// The call counts: something changed, the scene is not loading, and
    /// a frame is being drawn.
    pub open spec fn counts(self) -> bool {
        self.dirty && !self.loading && self.drawing
    }

    /// The call looks at the time: it counts, and no more calls are
    /// passed over.
    pub open spec fn looks_at_time(self) -> bool {
        self.counts() && self.throttle <= 1
    }

    /// Should we render the current frame? Yes, unless the call looks at
    /// the time and at least the time of one frame at the wanted rate has
    /// passed since the last time it did so, or it never did so before.
    /// `since_last` is that time in milliseconds. Where the answer is no,
    /// the caller notes the time of this call.
    pub fn throttle(&mut self, since_last: Option<u128>) -> (render: bool)
        requires
            old(self).counts() ==> old(self).throttle >= 1,
            old(self).looks_at_time() ==> old(self).target_fps >= 1,
        ensures
            render == !(old(self).looks_at_time() && match since_last {
                Some(passed) => passed >= 1000int / (old(self).target_fps as int),
                None => true,
            }),
            final(self).counts() ==> final(self).throttle >= 1,
            *final(self) == (Throttle {
                throttle: if !old(self).counts() {
                    old(self).throttle
                } else if old(self).throttle > 1 {
                    (old(self).throttle - 1) as u32
                } else {
                    2u32
                },
                ..*old(self)
            }),
    {
        if !self.dirty {
            return true;
        }
        if self.loading {
            return true;
        }
        if !self.drawing {
            return true;
        }
        self.throttle -= 1;
        if self.throttle >= 1 {
            return true;
        }
        self.throttle = 2;
        let target_delay: u128 = (1000 / self.target_fps) as u128;
        match since_last {
            Some(passed) => {
                if passed < target_delay {
                    return true;
                }
            },
            None => {},
        }
        false
    }
}

} // verus!
