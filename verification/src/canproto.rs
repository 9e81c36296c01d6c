//! Frames exchanged with the DAMIAO motors.
//!
//! A command frame holds five unsigned codes, most significant bit first:
//! position in 16 bits, then velocity, position gain, velocity gain and torque
//! in 12 bits each. Its identifier is the motor's, 1 to 23. A feedback frame
//! holds position, velocity and torque in the same widths, two temperatures and
//! an error code; its identifier is the motor's plus 16.
use crate::arithmetic::{
    accurate, defined, difference, keeps_order, lemma_difference_error, lemma_doubling,
    lemma_fraction_of, lemma_one_is_large, lemma_part_of, lemma_sum_error, minus, of_integer, over, perform, plus, product,
    quotient, size, sum, times, whole, Operation, HALF, HALVES, INTEGERS, ONE, TWO,
};
use crate::binary32::{at_most, below, clamp, clamped, clamped_lies_between, finite, is_nan, nan};
use crate::binary32::{lemma_between_finite, lemma_magnitude_order, negate, negated, one, same};
use crate::binary32::scaled;
use vstd::arithmetic::power2::{lemma2_to64, lemma_pow2_adds, lemma_pow2_pos, pow2};
use vstd::prelude::*;

pub mod accuracy;

verus! {

/// Offset between the identifier of a motor and that of its feedback frames.
pub const FEEDBACK_OFFSET: u16 = 16;

/// Largest identifier of a motor.
pub const MAX_MOTOR_ID: u16 = 23;

/// Bytes in a frame.
pub const FRAME_DLC: u8 = 8;

/// Largest 16-bit code.
pub const CODE16_MAX: u16 = 0xFFFF;

/// Largest 12-bit code.
pub const CODE12_MAX: u16 = 0x0FFF;

/// Largest position gain of a command: 500.0.
pub const KP_MAX: u32 = 0x43FA_0000;

/// Largest velocity gain of a command: 5.0.
pub const KD_MAX: u32 = 0x40A0_0000;

/// The largest 16-bit code as a number: 65535.0.
pub const CODE16_SPAN: u32 = 0x477F_FF00;

/// The largest 12-bit code as a number: 4095.0.
pub const CODE12_SPAN: u32 = 0x457F_F000;

/// Position that the largest code of a feedback stands for, in radians: 12.5.
pub const FEEDBACK_POS_MAX: u32 = 0x4148_0000;

/// Velocity that the largest code of a feedback stands for, in radians per second:
/// 20.0.
pub const FEEDBACK_SPD_MAX: u32 = 0x41A0_0000;

/// Torque that the largest code of a feedback stands for, in newton metres: 28.0.
pub const FEEDBACK_TAU_MAX: u32 = 0x41E0_0000;

/// Identifier of a CAN frame.
#[derive(Debug, Clone, Copy, PartialEq, Eq)]
pub struct CanId(pub u16);

/// CAN frame with up to eight bytes.
#[derive(Debug, Clone, Copy, PartialEq, Eq)]
pub struct CanFrame {
    pub id: CanId,
    pub dlc: u8,
    pub data: [u8; 8],
}

/// Model of a motor, which decides the ranges of its commands.
#[derive(Debug, Clone, Copy, PartialEq, Eq, Structural)]
pub enum MotorModel {
    /// DM 4340P: hips, knees, waist.
    Dm4340P,
    /// DM 10010L: ankles, shoulders, elbows.
    Dm10010L,
}

impl MotorModel {
    /// Largest position, in radians: 12.5.
    pub fn pos_max(self) -> (r: u32)
        ensures
            r == 0x4148_0000,
            2 * scaled(r) == 25 * one(),
    {
        proof {
            lemma_pattern(0x4148_0000, 0xC8_0000, 129);
            lemma2_to64();
            lemma_pow2_adds(20, 129);
            assert(2 * (0xC8_0000 * pow2(129)) == 25 * (0x10_0000 * pow2(129))) by (nonlinear_arith);
        }
        0x4148_0000
    }

    /// Largest velocity, in radians per second: 20.0 or 25.0.
    pub fn spd_max(self) -> (r: u32)
        ensures
            r == spd_max(self),
            scaled(r) == match self {
                MotorModel::Dm4340P => 20 * one(),
                MotorModel::Dm10010L => 25 * one(),
            },
    {
        proof {
            lemma_pattern(0x41A0_0000, 0xA0_0000, 130);
            lemma_pattern(0x41C8_0000, 0xC8_0000, 130);
            lemma2_to64();
            lemma_pow2_adds(19, 130);
            assert(0xA0_0000 * pow2(130) == 20 * (0x8_0000 * pow2(130))) by (nonlinear_arith);
            assert(0xC8_0000 * pow2(130) == 25 * (0x8_0000 * pow2(130))) by (nonlinear_arith);
        }
        match self {
            MotorModel::Dm4340P => 0x41A0_0000,
            MotorModel::Dm10010L => 0x41C8_0000,
        }
    }

    /// Largest torque, in newton metres: 28.0 or 200.0.
    pub fn tau_max(self) -> (r: u32)
        ensures
            r == tau_max(self),
            scaled(r) == match self {
                MotorModel::Dm4340P => 28 * one(),
                MotorModel::Dm10010L => 200 * one(),
            },
    {
        proof {
            lemma_pattern(0x41E0_0000, 0xE0_0000, 130);
            lemma_pattern(0x4348_0000, 0xC8_0000, 133);
            lemma2_to64();
            lemma_pow2_adds(19, 130);
            lemma_pow2_adds(16, 133);
            assert(0xE0_0000 * pow2(130) == 28 * (0x8_0000 * pow2(130))) by (nonlinear_arith);
            assert(0xC8_0000 * pow2(133) == 200 * (0x1_0000 * pow2(133))) by (nonlinear_arith);
        }
        match self {
            MotorModel::Dm4340P => 0x41E0_0000,
            MotorModel::Dm10010L => 0x4348_0000,
        }
    }
}

/// Pattern of the largest velocity of a model.
pub open spec fn spd_max(model: MotorModel) -> u32 {
    match model {
        MotorModel::Dm4340P => 0x41A0_0000,
        MotorModel::Dm10010L => 0x41C8_0000,
    }
}

/// Pattern of the largest torque of a model.
pub open spec fn tau_max(model: MotorModel) -> u32 {
    match model {
        MotorModel::Dm4340P => 0x41E0_0000,
        MotorModel::Dm10010L => 0x4348_0000,
    }
}

/// A positive pattern with an exponent counts its significand times a power of
/// two.
proof fn lemma_pattern(bits: u32, significand: int, shift: nat)
    requires
        bits < 0x7F80_0000,
        bits as int / 0x0080_0000 == shift + 1,
        significand == 0x0080_0000 + bits as int % 0x0080_0000,
    ensures
        scaled(bits) == significand * pow2(shift),
{
}

/// Command for one motor. Each field is a bit pattern of a real number.
#[derive(Debug, Clone, Copy, PartialEq, Eq)]
pub struct MitCommand {
    /// Position to reach, in radians.
    pub pos: u32,
    /// Velocity to reach, in radians per second.
    pub vel: u32,
    /// Position gain.
    pub kp: u32,
    /// Velocity gain.
    pub kd: u32,
    /// Torque to add, in newton metres.
    pub tau: u32,
}

/// Codes of a command, as they stand in its frame.
#[derive(Debug, Clone, Copy, PartialEq, Eq)]
pub struct MitFields {
    /// Position, in 16 bits.
    pub pos: u16,
    /// Velocity, in 12 bits.
    pub vel: u16,
    /// Position gain, in 12 bits.
    pub kp: u16,
    /// Velocity gain, in 12 bits.
    pub kd: u16,
    /// Torque, in 12 bits.
    pub tau: u16,
}

/// Real interval that a code spans: code 0 stands for `min`, code `top` for
/// `max`.
#[derive(Debug, Clone, Copy, PartialEq, Eq)]
pub struct FieldRange {
    pub min: u32,
    pub max: u32,
    pub top: u16,
}

/// Intervals of the five fields of a command.
#[derive(Debug, Clone, Copy, PartialEq, Eq)]
pub struct MitRanges {
    pub pos: FieldRange,
    pub vel: FieldRange,
    pub kp: FieldRange,
    pub kd: FieldRange,
    pub tau: FieldRange,
}

/// What a feedback frame tells. Position, velocity and torque are bit patterns of
/// real numbers.
#[derive(Debug, Clone, Copy, PartialEq, Eq)]
pub struct MitFeedback {
    pub motor_id: u8,
    /// Position, in radians.
    pub position: u32,
    /// Velocity, in radians per second.
    pub velocity: u32,
    /// Torque, in newton metres.
    pub torque: u32,
    pub error_code: u8,
}

/// Codes of a feedback, as they stand in its frame.
#[derive(Debug, Clone, Copy, PartialEq, Eq)]
pub struct FeedbackFields {
    pub motor_id: u8,
    /// Position, in 16 bits.
    pub position: u16,
    /// Velocity, in 12 bits.
    pub velocity: u16,
    /// Torque, in 12 bits.
    pub torque: u16,
    /// Error code, in 4 bits.
    pub error_code: u8,
}

/// Reason why a frame is no feedback frame.
#[derive(Debug, Clone, Copy, PartialEq, Eq)]
pub enum DecodeError {
    /// The identifier is not that of a motor plus 16.
    WrongCanId,
    /// The frame does not have eight bytes.
    WrongDlc,
}

/// Intervals of the command fields of a motor model.
pub open spec fn ranges_of(model: MotorModel) -> MitRanges {
    MitRanges {
        pos: FieldRange { min: negated(0x4148_0000), max: 0x4148_0000, top: CODE16_MAX },
        vel: FieldRange { min: negated(spd_max(model)), max: spd_max(model), top: CODE12_MAX },
        kp: FieldRange { min: 0, max: KP_MAX, top: CODE12_MAX },
        kd: FieldRange { min: 0, max: KD_MAX, top: CODE12_MAX },
        tau: FieldRange { min: negated(tau_max(model)), max: tau_max(model), top: CODE12_MAX },
    }
}

/// Intervals of the command fields of a motor model.
pub fn mit_ranges(model: MotorModel) -> (r: MitRanges)
    ensures
        r == ranges_of(model),
{
    let pos: u32 = model.pos_max();
    let spd: u32 = model.spd_max();
    let tau: u32 = model.tau_max();
    MitRanges {
        pos: FieldRange { min: negate(pos), max: pos, top: CODE16_MAX },
        vel: FieldRange { min: negate(spd), max: spd, top: CODE12_MAX },
        kp: FieldRange { min: 0, max: KP_MAX, top: CODE12_MAX },
        kd: FieldRange { min: 0, max: KD_MAX, top: CODE12_MAX },
        tau: FieldRange { min: negate(tau), max: tau, top: CODE12_MAX },
    }
}

/// The middle between two numbers.
pub open spec fn midpoint<F: Fn(Operation) -> u32>(fpu: F, lo: u32, hi: u32) -> u32 {
    product(fpu, sum(fpu, lo, hi), HALF)
}

/// `x` limited to the interval from `lo` to `hi`. A NaN becomes the middle of the
/// interval, so that it never commands an extreme.
pub open spec fn clipped<F: Fn(Operation) -> u32>(fpu: F, x: u32, lo: u32, hi: u32) -> u32 {
    if nan(x) {
        midpoint(fpu, lo, hi)
    } else {
        clamped(x, lo, hi)
    }
}

/// Limits `x` to the interval from `lo` to `hi`. A NaN becomes the middle of the
/// interval.
pub fn clip_f32<F: Fn(Operation) -> u32>(x: u32, lo: u32, hi: u32, fpu: &F) -> (r: u32)
    requires
        defined(*fpu),
    ensures
        r == clipped(*fpu, x, lo, hi),
{
    if is_nan(x) {
        times(fpu, plus(fpu, lo, hi), HALF)
    } else {
        clamp(x, lo, hi)
    }
}

/// The code of a number between `in_min` and `in_max`: how far it lies from the one
/// to the other, as a fraction; that fraction of the way from `out_min` to
/// `out_max`, rounded half up.
pub open spec fn code_inside<F: Fn(Operation) -> u32>(
    fpu: F,
    inside: u32,
    in_min: u32,
    in_max: u32,
    out_min: u32,
    out_max: u32,
) -> u32 {
    let fraction = quotient(
        fpu,
        difference(fpu, inside, in_min),
        difference(fpu, in_max, in_min),
    );
    let span = of_integer(fpu, (out_max - out_min) as u32);
    let exact = sum(fpu, of_integer(fpu, out_min), product(fpu, fraction, span));
    whole(fpu, sum(fpu, exact, HALF))
}

/// The code of a number, once it is limited to its interval.
pub open spec fn coded<F: Fn(Operation) -> u32>(
    fpu: F,
    x: u32,
    in_min: u32,
    in_max: u32,
    out_min: u32,
    out_max: u32,
) -> u32 {
    code_inside(fpu, clipped(fpu, x, in_min, in_max), in_min, in_max, out_min, out_max)
}

/// Maps a number linearly to a code, limiting it to its interval first.
pub fn range_map<F: Fn(Operation) -> u32>(
    x: u32,
    in_min: u32,
    in_max: u32,
    out_min: u32,
    out_max: u32,
    fpu: &F,
) -> (r: u32)
    requires
        defined(*fpu),
        out_min <= out_max,
    ensures
        r == coded(*fpu, x, in_min, in_max, out_min, out_max),
{
    let inside: u32 = clip_f32(x, in_min, in_max, fpu);
    let fraction: u32 = over(fpu, minus(fpu, inside, in_min), minus(fpu, in_max, in_min));
    let span: u32 = perform(fpu, Operation::OfInteger(out_max - out_min));
    let exact: u32 = plus(
        fpu,
        perform(fpu, Operation::OfInteger(out_min)),
        times(fpu, fraction, span),
    );
    perform(fpu, Operation::Whole(plus(fpu, exact, HALF)))
}

/// The eight bytes of a command frame. Bits of a code above its width are
/// dropped.
pub open spec fn packed(f: MitFields) -> Seq<u8> {
    seq![
        (f.pos / 256) as u8,
        (f.pos % 256) as u8,
        (f.vel / 16 % 256) as u8,
        (f.vel % 16 * 16 + f.kp / 256 % 16) as u8,
        (f.kp % 256) as u8,
        (f.kd / 16 % 256) as u8,
        (f.kd % 16 * 16 + f.tau / 256 % 16) as u8,
        (f.tau % 256) as u8,
    ]
}

/// The eight bytes read as one number, most significant byte first.
pub open spec fn word(d: Seq<u8>) -> int {
    d[0] * 0x100_0000_0000_0000 + d[1] * 0x1_0000_0000_0000 + d[2] * 0x100_0000_0000 + d[3]
        * 0x1_0000_0000 + d[4] * 0x100_0000 + d[5] * 0x1_0000 + d[6] * 0x100 + d[7]
}

/// Builds the command frame of a motor from its codes.
pub fn encode_fields(motor_id: u8, fields: &MitFields) -> (r: CanFrame)
    ensures
        r.id == CanId(motor_id as u16),
        r.dlc == FRAME_DLC,
        r.data@ == packed(*fields),
{
    let (p, v, kp, kd, t) = (fields.pos, fields.vel, fields.kp, fields.kd, fields.tau);
    let data: [u8; 8] = [
        (p / 256) as u8,
        (p % 256) as u8,
        (v / 16 % 256) as u8,
        (v % 16 * 16 + kp / 256 % 16) as u8,
        (kp % 256) as u8,
        (kd / 16 % 256) as u8,
        (kd % 16 * 16 + t / 256 % 16) as u8,
        (t % 256) as u8,
    ];
    assert(data@ =~= packed(*fields));
    CanFrame { id: CanId(motor_id as u16), dlc: FRAME_DLC, data }
}

/// The code of one field, cut to 16 bits.
pub open spec fn field_code<F: Fn(Operation) -> u32>(fpu: F, x: u32, range: FieldRange) -> u16 {
    coded(fpu, x, range.min, range.max, 0, range.top as u32) as u16
}

/// The codes of a command.
pub open spec fn fields_of<F: Fn(Operation) -> u32>(
    fpu: F,
    model: MotorModel,
    cmd: MitCommand,
) -> MitFields {
    let ranges = ranges_of(model);
    MitFields {
        pos: field_code(fpu, cmd.pos, ranges.pos),
        vel: field_code(fpu, cmd.vel, ranges.vel),
        kp: field_code(fpu, cmd.kp, ranges.kp),
        kd: field_code(fpu, cmd.kd, ranges.kd),
        tau: field_code(fpu, cmd.tau, ranges.tau),
    }
}

/// `frame` is the command frame of a motor for a command.
pub open spec fn encodes<F: Fn(Operation) -> u32>(
    fpu: F,
    motor_id: u8,
    model: MotorModel,
    cmd: MitCommand,
    frame: CanFrame,
) -> bool {
    &&& frame.id == CanId(motor_id as u16)
    &&& frame.dlc == FRAME_DLC
    &&& frame.data@ == packed(fields_of(fpu, model, cmd))
}

/// Computes the code of one field, cut to 16 bits.
fn encode_field<F: Fn(Operation) -> u32>(x: u32, range: &FieldRange, fpu: &F) -> (r: u16)
    requires
        defined(*fpu),
    ensures
        r == field_code(*fpu, x, *range),
{
    let code: u32 = range_map(x, range.min, range.max, 0, range.top as u32, fpu);
    #[verifier::truncate]
    (code as u16)
}

/// Builds the command frame of a motor.
pub fn encode_mit<F: Fn(Operation) -> u32>(
    motor_id: u8,
    model: MotorModel,
    cmd: &MitCommand,
    fpu: &F,
) -> (r: CanFrame)
    requires
        defined(*fpu),
    ensures
        encodes(*fpu, motor_id, model, *cmd, r),
{
    let ranges = mit_ranges(model);
    let fields = MitFields {
        pos: encode_field(cmd.pos, &ranges.pos, fpu),
        vel: encode_field(cmd.vel, &ranges.vel, fpu),
        kp: encode_field(cmd.kp, &ranges.kp, fpu),
        kd: encode_field(cmd.kd, &ranges.kd, fpu),
        tau: encode_field(cmd.tau, &ranges.tau, fpu),
    };
    encode_fields(motor_id, &fields)
}

/// The codes of a feedback frame, or why it is none.
pub open spec fn feedback_fields(frame: CanFrame) -> Result<FeedbackFields, DecodeError> {
    let d = frame.data@;
    if frame.dlc != FRAME_DLC {
        Err(DecodeError::WrongDlc)
    } else if !(FEEDBACK_OFFSET <= frame.id.0 <= FEEDBACK_OFFSET + MAX_MOTOR_ID) {
        Err(DecodeError::WrongCanId)
    } else {
        Ok(
            FeedbackFields {
                motor_id: (frame.id.0 - FEEDBACK_OFFSET) as u8,
                position: (d[0] * 256 + d[1]) as u16,
                velocity: (d[2] * 16 + d[3] / 16) as u16,
                torque: (d[3] % 16 * 256 + d[4]) as u16,
                error_code: d[7] / 16,
            },
        )
    }
}

/// The number that a code stands for: codes from zero to `span` run evenly from
/// minus to plus `max`.
pub open spec fn uncoded<F: Fn(Operation) -> u32>(fpu: F, code: u16, span: u32, max: u32) -> u32 {
    let fraction = quotient(fpu, of_integer(fpu, code as u32), span);
    product(fpu, product(fpu, difference(fpu, fraction, HALF), TWO), max)
}

/// The feedback whose codes are given.
pub open spec fn feedback_of<F: Fn(Operation) -> u32>(fpu: F, f: FeedbackFields) -> MitFeedback {
    MitFeedback {
        motor_id: f.motor_id,
        position: uncoded(fpu, f.position, CODE16_SPAN, FEEDBACK_POS_MAX),
        velocity: uncoded(fpu, f.velocity, CODE12_SPAN, FEEDBACK_SPD_MAX),
        torque: uncoded(fpu, f.torque, CODE12_SPAN, FEEDBACK_TAU_MAX),
        error_code: f.error_code,
    }
}

/// Reads the codes of a feedback frame.
pub fn decode_fields(frame: &CanFrame) -> (r: Result<FeedbackFields, DecodeError>)
    ensures
        r == feedback_fields(*frame),
{
    if frame.dlc != FRAME_DLC {
        return Err(DecodeError::WrongDlc);
    }
    if frame.id.0 < FEEDBACK_OFFSET || frame.id.0 > FEEDBACK_OFFSET + MAX_MOTOR_ID {
        return Err(DecodeError::WrongCanId);
    }
    let d = frame.data;
    Ok(
        FeedbackFields {
            motor_id: (frame.id.0 - FEEDBACK_OFFSET) as u8,
            position: d[0] as u16 * 256 + d[1] as u16,
            velocity: d[2] as u16 * 16 + d[3] as u16 / 16,
            torque: d[3] as u16 % 16 * 256 + d[4] as u16,
            error_code: d[7] / 16,
        },
    )
}

/// Computes the number that a code stands for.
fn decode_code<F: Fn(Operation) -> u32>(code: u16, span: u32, max: u32, fpu: &F) -> (r: u32)
    requires
        defined(*fpu),
    ensures
        r == uncoded(*fpu, code, span, max),
{
    let fraction: u32 = over(fpu, perform(fpu, Operation::OfInteger(code as u32)), span);
    times(fpu, times(fpu, minus(fpu, fraction, HALF), TWO), max)
}

/// Reads a feedback frame.
pub fn decode_mit_feedback<F: Fn(Operation) -> u32>(frame: &CanFrame, fpu: &F) -> (r: Result<
    MitFeedback,
    DecodeError,
>)
    requires
        defined(*fpu),
    ensures
        r == match feedback_fields(*frame) {
            Ok(f) => Ok(feedback_of(*fpu, f)),
            Err(e) => Err(e),
        },
{
    match decode_fields(frame) {
        Ok(f) => Ok(
            MitFeedback {
                motor_id: f.motor_id,
                position: decode_code(f.position, CODE16_SPAN, FEEDBACK_POS_MAX, fpu),
                velocity: decode_code(f.velocity, CODE12_SPAN, FEEDBACK_SPD_MAX, fpu),
                torque: decode_code(f.torque, CODE12_SPAN, FEEDBACK_TAU_MAX, fpu),
                error_code: f.error_code,
            },
        ),
        Err(e) => Err(e),
    }
}

/// A number lies in an interval.
pub open spec fn lies_in(x: u32, range: FieldRange) -> bool {
    !nan(x) && !below(x, range.min) && !below(range.max, x)
}

/// The interval is one of the five of a motor model.
pub open spec fn is_range_of(range: FieldRange, model: MotorModel) -> bool {
    let ranges = ranges_of(model);
    range == ranges.pos || range == ranges.vel || range == ranges.kp || range == ranges.kd || range
        == ranges.tau
}

/// Each interval runs from its lower to its upper end.
pub proof fn intervals_are_in_order(range: FieldRange, model: MotorModel)
    requires
        is_range_of(range, model),
    ensures
        !nan(range.min) && !nan(range.max),
        below(range.min, range.max),
{
    lemma_magnitude_order(0, range.max as int);
}

/// The unit finds the number half way between the ends of an interval.
pub open spec fn finds_the_middle<F: Fn(Operation) -> u32>(fpu: F, range: FieldRange) -> bool {
    let mid = midpoint(fpu, range.min, range.max);
    !nan(mid) && 2 * scaled(mid) == scaled(range.min) + scaled(range.max)
}

/// Whatever a command holds, even an infinity or, with a unit that finds the
/// middle of the interval, a NaN, only numbers inside the interval of their field
/// are ever mapped to codes; a number that lies there is mapped as it is.
#[verifier::rlimit(60)]
pub proof fn only_numbers_in_range_are_coded<F: Fn(Operation) -> u32>(
    fpu: F,
    x: u32,
    range: FieldRange,
    model: MotorModel,
)
    requires
        is_range_of(range, model),
        nan(x) ==> finds_the_middle(fpu, range),
    ensures
        lies_in(clipped(fpu, x, range.min, range.max), range),
        lies_in(x, range) ==> clipped(fpu, x, range.min, range.max) == x,
{
    intervals_are_in_order(range, model);
    if !nan(x) {
        clamped_lies_between(x, range.min, range.max);
    }
}

/// A number beyond an end of its interval has the code of that end; a NaN has
/// that of the middle, with a unit that finds it.
pub proof fn codes_saturate<F: Fn(Operation) -> u32>(
    fpu: F,
    x: u32,
    range: FieldRange,
    model: MotorModel,
)
    requires
        is_range_of(range, model),
    ensures
        below(x, range.min) ==> field_code(fpu, x, range) == field_code(fpu, range.min, range),
        below(range.max, x) ==> field_code(fpu, x, range) == field_code(fpu, range.max, range),
        nan(x) && finds_the_middle(fpu, range) ==> field_code(fpu, x, range) == field_code(
            fpu,
            midpoint(fpu, range.min, range.max),
            range,
        ),
{
    intervals_are_in_order(range, model);
}

/// The codes fit their widths.
pub open spec fn in_width(f: MitFields) -> bool {
    f.vel <= CODE12_MAX && f.kp <= CODE12_MAX && f.kd <= CODE12_MAX && f.tau <= CODE12_MAX
}

/// A command frame is one 64-bit number, most significant byte first, in which
/// the codes stand side by side: position, velocity, position gain, velocity
/// gain, torque.
pub proof fn codes_stand_side_by_side(f: MitFields)
    requires
        in_width(f),
    ensures
        word(packed(f)) == f.pos * 0x1_0000_0000_0000 + f.vel * 0x10_0000_0000 + f.kp * 0x100_0000
            + f.kd * 0x1000 + f.tau,
{
    let d = packed(f);
    let (p1, p0) = (f.pos as int / 256, f.pos as int % 256);
    let (v1, v0) = (f.vel as int / 16, f.vel as int % 16);
    let (a1, a0) = (f.kp as int / 256, f.kp as int % 256);
    let (b1, b0) = (f.kd as int / 16, f.kd as int % 16);
    let (t1, t0) = (f.tau as int / 256, f.tau as int % 256);
    assert(f.pos == p1 * 256 + p0 && f.vel == v1 * 16 + v0 && f.kp == a1 * 256 + a0);
    assert(f.kd == b1 * 16 + b0 && f.tau == t1 * 256 + t0);
    assert(d[0] == p1 && d[1] == p0 && d[2] == v1 && d[3] == v0 * 16 + a1);
    assert(d[4] == a0 && d[5] == b1 && d[6] == b0 * 16 + t1 && d[7] == t0);
}

/// The interval and the codes are such that the unit maps the one to the others
/// without overflow or loss.
pub open spec fn mappable<F: Fn(Operation) -> u32>(
    fpu: F,
    in_min: u32,
    in_max: u32,
    out_min: u32,
    out_max: u32,
) -> bool {
    &&& finite(in_min) && finite(in_max) && below(in_min, in_max)
    &&& finite(difference(fpu, in_max, in_min))
    &&& out_min <= out_max < HALVES
}

/// A fraction from zero to one, and its share of the codes, lie between those of
/// the ends.
#[verifier::rlimit(60)]
proof fn lemma_share<F: Fn(Operation) -> u32>(
    fpu: F,
    x: u32,
    in_min: u32,
    in_max: u32,
    out_min: u32,
    out_max: u32,
)
    requires
        keeps_order(fpu),
        mappable(fpu, in_min, in_max, out_min, out_max),
        at_most(in_min, x),
        at_most(x, in_max),
    ensures
        ({
            let d = difference(fpu, x, in_min);
            let fraction = quotient(fpu, d, difference(fpu, in_max, in_min));
            let span = of_integer(fpu, (out_max - out_min) as u32);
            let share = product(fpu, fraction, span);
            let exact = sum(fpu, of_integer(fpu, out_min), share);
            &&& finite(x) && finite(d) && finite(fraction) && finite(span) && finite(share)
            &&& finite(exact) && at_most(0, span)
            &&& at_most(of_integer(fpu, out_min), exact)
            &&& at_most(exact, of_integer(fpu, out_max))
            &&& scaled(x) == scaled(in_min) ==> same(exact, of_integer(fpu, out_min))
            &&& scaled(x) == scaled(in_max) ==> same(exact, of_integer(fpu, out_max))
        }),
{
    reveal(keeps_order);
    let whole_d = difference(fpu, in_max, in_min);
    let d = difference(fpu, x, in_min);
    let fraction = quotient(fpu, d, whole_d);
    let n = (out_max - out_min) as u32;
    let span = of_integer(fpu, n);
    let share = product(fpu, fraction, span);
    let base = of_integer(fpu, out_min);
    let exact = sum(fpu, base, share);
    lemma_between_finite(in_min, x, in_max);
    assert(at_most(difference(fpu, in_min, in_min), d));
    assert(at_most(d, whole_d));
    lemma_between_finite(0, d, whole_d);
    assert(below(0, whole_d));
    assert(at_most(quotient(fpu, 0, whole_d), fraction));
    assert(at_most(fraction, quotient(fpu, whole_d, whole_d)));
    lemma_between_finite(0, fraction, ONE);
    lemma_pow2_pos(149);
    assert(0 <= n * one()) by (nonlinear_arith)
        requires
            0 <= n,
            0 <= one(),
    ;
    assert(at_most(0, span));
    assert(at_most(product(fpu, 0, span), share));
    assert(at_most(share, product(fpu, ONE, span)));
    lemma_between_finite(0, share, span);
    assert(0 * one() == 0);
    let first = sum(fpu, base, 0);
    let last = sum(fpu, base, span);
    assert(out_min + 0 < INTEGERS && scaled(0) == 0u32 * one());
    assert(same(first, of_integer(fpu, (out_min + 0u32) as u32)));
    assert(same(last, of_integer(fpu, (out_min + n) as u32)));
    assert((out_min + 0u32) as u32 == out_min && (out_min + n) as u32 == out_max);
    assert(at_most(first, exact));
    assert(at_most(exact, last));
    lemma_between_finite(base, exact, of_integer(fpu, out_max));
    if scaled(x) == scaled(in_min) {
        assert(at_most(d, difference(fpu, in_min, in_min)));
        assert(at_most(fraction, quotient(fpu, 0, whole_d)));
        assert(at_most(share, product(fpu, 0, span)));
        assert(at_most(exact, first));
    }
    if scaled(x) == scaled(in_max) {
        assert(at_most(whole_d, d));
        assert(at_most(quotient(fpu, whole_d, whole_d), fraction));
        assert(at_most(product(fpu, ONE, span), share));
        assert(at_most(last, exact));
    }
}

/// Codes of numbers inside the interval keep their order, lie between the codes of
/// the ends, and are those at the ends.
#[verifier::rlimit(60)]
proof fn lemma_codes_inside<F: Fn(Operation) -> u32>(
    fpu: F,
    x: u32,
    y: u32,
    in_min: u32,
    in_max: u32,
    out_min: u32,
    out_max: u32,
)
    requires
        keeps_order(fpu),
        mappable(fpu, in_min, in_max, out_min, out_max),
        at_most(in_min, x),
        at_most(x, y),
        at_most(y, in_max),
    ensures
        ({
            let p = code_inside(fpu, x, in_min, in_max, out_min, out_max);
            let q = code_inside(fpu, y, in_min, in_max, out_min, out_max);
            &&& out_min <= p <= q <= out_max
            &&& scaled(x) == scaled(in_min) ==> p == out_min
            &&& scaled(y) == scaled(in_max) ==> q == out_max
        }),
{
    reveal(keeps_order);
    lemma_share(fpu, x, in_min, in_max, out_min, out_max);
    lemma_share(fpu, y, in_min, in_max, out_min, out_max);
    let whole_d = difference(fpu, in_max, in_min);
    let span = of_integer(fpu, (out_max - out_min) as u32);
    let (dx, dy) = (difference(fpu, x, in_min), difference(fpu, y, in_min));
    let (fx, fy) = (quotient(fpu, dx, whole_d), quotient(fpu, dy, whole_d));
    let (sx, sy) = (product(fpu, fx, span), product(fpu, fy, span));
    let (low, high) = (of_integer(fpu, out_min), of_integer(fpu, out_max));
    let (ex, ey) = (sum(fpu, low, sx), sum(fpu, low, sy));
    assert(at_most(dx, dy));
    assert(below(0, whole_d));
    assert(at_most(fx, fy));
    assert(at_most(sx, sy));
    assert(at_most(ex, ey));
    assert(finite(HALF) && finite(low) && finite(high));
    assert(at_most(sum(fpu, low, HALF), sum(fpu, ex, HALF)));
    assert(at_most(sum(fpu, ex, HALF), sum(fpu, ey, HALF)));
    assert(at_most(sum(fpu, ey, HALF), sum(fpu, high, HALF)));
    assert(same(low, of_integer(fpu, out_min)) && same(high, of_integer(fpu, out_max)));
    assert(whole(fpu, sum(fpu, low, HALF)) == out_min);
    assert(whole(fpu, sum(fpu, high, HALF)) == out_max);
}

/// With a unit that keeps order, codes lie between `out_min` and `out_max` and keep
/// the order of the numbers; a number at or beyond an end of the interval has the
/// code of that end.
#[verifier::rlimit(60)]
pub proof fn codes_keep_order<F: Fn(Operation) -> u32>(
    fpu: F,
    x: u32,
    y: u32,
    in_min: u32,
    in_max: u32,
    out_min: u32,
    out_max: u32,
)
    requires
        keeps_order(fpu),
        mappable(fpu, in_min, in_max, out_min, out_max),
        at_most(x, y),
    ensures
        ({
            let p = coded(fpu, x, in_min, in_max, out_min, out_max);
            let q = coded(fpu, y, in_min, in_max, out_min, out_max);
            &&& out_min <= p <= q <= out_max
            &&& at_most(x, in_min) ==> p == out_min
            &&& at_most(in_max, y) ==> q == out_max
        }),
{
    lemma_codes_inside(
        fpu,
        clamped(x, in_min, in_max),
        clamped(y, in_min, in_max),
        in_min,
        in_max,
        out_min,
        out_max,
    );
}

/// The unit finds the middle of each interval of a motor model, and its length.
pub open spec fn spans_ranges<F: Fn(Operation) -> u32>(fpu: F, model: MotorModel) -> bool {
    forall|range: FieldRange| #[trigger]
        is_range_of(range, model) ==> finds_the_middle(fpu, range) && finite(
            difference(fpu, range.max, range.min),
        )
}

/// The code of a field is never larger than the largest of its interval.
#[verifier::rlimit(60)]
proof fn lemma_field_code<F: Fn(Operation) -> u32>(fpu: F, x: u32, range: FieldRange, model: MotorModel)
    requires
        keeps_order(fpu),
        spans_ranges(fpu, model),
        is_range_of(range, model),
    ensures
        field_code(fpu, x, range) <= range.top,
        field_code(fpu, x, range) == coded(fpu, x, range.min, range.max, 0, range.top as u32),
{
    let inside = clipped(fpu, x, range.min, range.max);
    intervals_are_in_order(range, model);
    only_numbers_in_range_are_coded(fpu, x, range, model);
    lemma_codes_inside(fpu, inside, inside, range.min, range.max, 0, range.top as u32);
}

/// Whatever a command holds, even a NaN, its codes fit their fields, with a unit
/// that keeps order; so they stand side by side in its frame, none of them cut.
#[verifier::rlimit(60)]
pub proof fn codes_fit_their_fields<F: Fn(Operation) -> u32>(fpu: F, model: MotorModel, cmd: MitCommand)
    requires
        keeps_order(fpu),
        spans_ranges(fpu, model),
    ensures
        ({
            let f = fields_of(fpu, model, cmd);
            let ranges = ranges_of(model);
            &&& in_width(f)
            &&& f.pos == coded(fpu, cmd.pos, ranges.pos.min, ranges.pos.max, 0, 0xFFFF)
            &&& f.vel == coded(fpu, cmd.vel, ranges.vel.min, ranges.vel.max, 0, 0x0FFF)
            &&& f.kp == coded(fpu, cmd.kp, ranges.kp.min, ranges.kp.max, 0, 0x0FFF)
            &&& f.kd == coded(fpu, cmd.kd, ranges.kd.min, ranges.kd.max, 0, 0x0FFF)
            &&& f.tau == coded(fpu, cmd.tau, ranges.tau.min, ranges.tau.max, 0, 0x0FFF)
            &&& word(packed(f)) == f.pos * 0x1_0000_0000_0000 + f.vel * 0x10_0000_0000 + f.kp
                * 0x100_0000 + f.kd * 0x1000 + f.tau
        }),
{
    let ranges = ranges_of(model);
    lemma_field_code(fpu, cmd.pos, ranges.pos, model);
    lemma_field_code(fpu, cmd.vel, ranges.vel, model);
    lemma_field_code(fpu, cmd.kp, ranges.kp, model);
    lemma_field_code(fpu, cmd.kd, ranges.kd, model);
    lemma_field_code(fpu, cmd.tau, ranges.tau, model);
    codes_stand_side_by_side(fields_of(fpu, model, cmd));
}

/// Position and velocity stand in the same places in both kinds of frame: what a
/// command frame holds of them is read from it as feedback of the motor.
pub proof fn sent_codes_are_read_back(motor_id: u8, f: MitFields, frame: CanFrame)
    requires
        1 <= motor_id <= MAX_MOTOR_ID,
        in_width(f),
        frame.id == CanId((motor_id + FEEDBACK_OFFSET) as u16),
        frame.dlc == FRAME_DLC,
        frame.data@ == packed(f),
    ensures
        feedback_fields(frame) matches Ok(told) && told.motor_id == motor_id && told.position
            == f.pos && told.velocity == f.vel,
{
}

/// The constants of the position code as numbers: 12.5, 25, 0.5 and 65535.
proof fn lemma_position_constants()
    ensures
        2 * scaled(FEEDBACK_POS_MAX) == 25 * one(),
        scaled(negated(FEEDBACK_POS_MAX)) == -scaled(FEEDBACK_POS_MAX),
        scaled(0x41C8_0000) == 25 * one(),
        2 * scaled(HALF) == one(),
        scaled(CODE16_SPAN) == 65535 * one(),
        one() >= 0x1_0000_0000_0000_0000,
{
    lemma2_to64();
    lemma_pattern(0x4148_0000, 0xC8_0000, 129);
    lemma_pow2_adds(20, 129);
    assert(2 * (0xC8_0000 * pow2(129)) == 25 * (0x10_0000 * pow2(129))) by (nonlinear_arith);
    lemma_pattern(0x41C8_0000, 0xC8_0000, 130);
    lemma_pow2_adds(19, 130);
    assert(0xC8_0000 * pow2(130) == 25 * (0x8_0000 * pow2(130))) by (nonlinear_arith);
    lemma_pattern(HALF, 0x80_0000, 125);
    lemma_pow2_adds(24, 125);
    assert(2 * (0x80_0000 * pow2(125)) == 0x100_0000 * pow2(125)) by (nonlinear_arith);
    lemma_pattern(CODE16_SPAN, 0xFF_FF00, 141);
    lemma_pow2_adds(8, 141);
    assert(0xFF_FF00 * pow2(141) == 65535 * (0x100 * pow2(141))) by (nonlinear_arith);
    lemma_one_is_large();
}

/// The code of a position lies within half a code, and four roundings, of where the
/// position stands between minus and plus 12.5.
#[verifier::rlimit(60)]
proof fn lemma_position_code<F: Fn(Operation) -> u32>(fpu: F, x: u32)
    requires
        accurate(fpu),
        finite(x),
        size(2 * scaled(x)) <= 25 * one(),
    ensures
        ({
            let code = coded(fpu, x, negated(FEEDBACK_POS_MAX), FEEDBACK_POS_MAX, 0, 0xFFFF);
            &&& code <= 0xFFFF
            &&& INTEGERS * size(50 * (code * one()) - 65535 * (2 * scaled(x) + 25 * one()))
                <= INTEGERS * (25 * one()) + 201 * (65535 * one())
        }),
{
    let k = one();
    let (lo, hi) = (negated(FEEDBACK_POS_MAX), FEEDBACK_POS_MAX);
    lemma_position_constants();
    assert(finite(lo) && finite(hi) && finite(HALF));
    assert(clipped(fpu, x, lo, hi) == x);
    let d = difference(fpu, x, lo);
    lemma_difference_error(fpu, x, lo);
    assert(INTEGERS * size(2 * scaled(d) - (2 * scaled(x) + 25 * k)) <= 50 * k);
    let whole_d = difference(fpu, hi, lo);
    assert(scaled(whole_d) == 25 * k && finite(whole_d)) by {
        reveal(accurate);
        assert(scaled(0x41C8_0000) == scaled(hi) - scaled(lo));
    }
    let fraction = quotient(fpu, d, whole_d);
    lemma_part_of(fpu, d, whole_d, 25);
    assert(INTEGERS * size(25 * scaled(fraction) - scaled(d)) <= 26 * k);
    let span = of_integer(fpu, 65535);
    let zero = of_integer(fpu, 0);
    assert(finite(span) && scaled(span) == 65535 * k && finite(zero) && scaled(zero) == 0) by {
        reveal(accurate);
    }
    lemma_fraction_of(fpu, fraction, span, 65535, 1);
    let share = product(fpu, fraction, span);
    lemma_sum_error(fpu, zero, share);
    let exact = sum(fpu, zero, share);
    lemma_sum_error(fpu, exact, HALF);
    let rounded = sum(fpu, exact, HALF);
    let code = whole(fpu, rounded);
    assert(0 <= scaled(rounded) < 65536 * k);
    assert(code * k <= scaled(rounded) < (code + 1) * k) by {
        reveal(accurate);
    }
    assert(code < 65536) by (nonlinear_arith)
        requires
            code * k < 65536 * k,
            0 < k,
    ;
    assert((code + 1) * k == code * k + k) by (nonlinear_arith);
}

/// A position that is read from its code lies within three roundings of where the
/// code stands.
#[verifier::rlimit(60)]
proof fn lemma_position_read<F: Fn(Operation) -> u32>(fpu: F, code: u16)
    requires
        accurate(fpu),
    ensures
        ({
            let x = uncoded(fpu, code, CODE16_SPAN, FEEDBACK_POS_MAX);
            INTEGERS * size(65535 * (2 * scaled(x)) - (50 * (code * one()) - 65535 * (25 * one())))
                <= 101 * (65535 * one())
        }),
{
    let k = one();
    lemma_position_constants();
    let n = of_integer(fpu, code as u32);
    assert(finite(n) && scaled(n) == code * k) by {
        reveal(accurate);
    }
    assert(0 <= code * k <= 65535 * k) by (nonlinear_arith)
        requires
            0 <= code <= 65535,
            0 < k,
    ;
    lemma_part_of(fpu, n, CODE16_SPAN, 65535);
    let q = quotient(fpu, n, CODE16_SPAN);
    lemma_difference_error(fpu, q, HALF);
    let h = difference(fpu, q, HALF);
    let g = product(fpu, h, TWO);
    lemma_doubling(fpu, h);
    lemma_fraction_of(fpu, g, FEEDBACK_POS_MAX, 25, 2);
}

/// A position that is sent comes back to half a step of its code, which is 25 in
/// 65535, and rounding: within 0.0002, with the number of its motor. The unit is
/// one that is accurate.
#[verifier::rlimit(60)]
pub proof fn positions_come_back<F: Fn(Operation) -> u32>(
    fpu: F,
    motor_id: u8,
    model: MotorModel,
    cmd: MitCommand,
    frame: CanFrame,
)
    requires
        accurate(fpu),
        1 <= motor_id <= MAX_MOTOR_ID,
        finite(cmd.pos),
        size(2 * scaled(cmd.pos)) <= 25 * one(),
        frame.id == CanId((motor_id + FEEDBACK_OFFSET) as u16),
        frame.dlc == FRAME_DLC,
        frame.data@ == packed(fields_of(fpu, model, cmd)),
    ensures
        feedback_fields(frame) matches Ok(told) && told.motor_id == motor_id && 10000 * size(
            scaled(feedback_of(fpu, told).position) - scaled(cmd.pos),
        ) <= 2 * one(),
{
    lemma_position_constants();
    lemma_position_code(fpu, cmd.pos);
    let f = fields_of(fpu, model, cmd);
    assert(frame.data@[0] == f.pos / 256 && frame.data@[1] == f.pos % 256);
    lemma_position_read(fpu, f.pos);
}

/// No two commands whose codes fit their widths share a frame.
pub proof fn frames_determine_codes(f: MitFields, g: MitFields)
    requires
        in_width(f),
        in_width(g),
        packed(f) == packed(g),
    ensures
        f == g,
{
    let (a, b) = (packed(f), packed(g));
    assert(a[0] == b[0] && a[1] == b[1] && a[2] == b[2] && a[3] == b[3]);
    assert(a[4] == b[4] && a[5] == b[5] && a[6] == b[6] && a[7] == b[7]);
}

/// A feedback frame that a motor fills as documented is read back in full.
pub proof fn feedback_is_read_back(frame: CanFrame, told: FeedbackFields)
    requires
        1 <= told.motor_id <= MAX_MOTOR_ID,
        told.velocity <= CODE12_MAX,
        told.torque <= CODE12_MAX,
        told.error_code < 16,
        frame.id == CanId((told.motor_id + FEEDBACK_OFFSET) as u16),
        frame.dlc == FRAME_DLC,
        frame.data@[0] == told.position / 256,
        frame.data@[1] == told.position % 256,
        frame.data@[2] == told.velocity / 16,
        frame.data@[3] == told.velocity % 16 * 16 + told.torque / 256,
        frame.data@[4] == told.torque % 256,
        frame.data@[7] / 16 == told.error_code,
    ensures
        feedback_fields(frame) == Ok::<FeedbackFields, DecodeError>(told),
{
}

/// What is read from a frame fits the widths of its fields, and names a motor of
/// the robot or zero.
pub proof fn feedback_is_in_width(frame: CanFrame)
    ensures
        feedback_fields(frame) matches Ok(told) ==> told.motor_id <= MAX_MOTOR_ID && told.velocity
            <= CODE12_MAX && told.torque <= CODE12_MAX && told.error_code < 16,
{
}

} // verus!
