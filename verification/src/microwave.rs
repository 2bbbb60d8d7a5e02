//! The microwave time calculator: given the wattage, time and power level
//! printed on a box, and the wattage of the microwave at hand, the power
//! level and time to use instead.
//!
//! All arithmetic is exact rational arithmetic over the integer inputs, with
//! rounding half away from zero where the box's fractions do not divide
//! evenly, and saturation at the widest representable time.

use vstd::prelude::*;

verus! {

/// The raw query inputs, each optional: box wattage, box minutes, box
/// seconds, box power level, and the wattage of the microwave at hand.
pub struct MicrowaveQuery {
    pub bw: Option<u32>,
    pub bm: Option<u32>,
    pub bs: Option<u32>,
    pub bp: Option<u32>,
    pub w: Option<u32>,
}

/// The computed setting: minutes, seconds, and power level.
#[derive(Clone, Copy, Debug, PartialEq, Eq, Structural)]
pub struct MicrowaveResult {
    pub minutes: u32,
    pub seconds: u32,
    pub power: u32,
}

/// The smaller of two integers.
pub open spec fn min_int(a: int, b: int) -> int {
    if a < b {
        a
    } else {
        b
    }
}

/// The power level to use: the box's power scaled by the wattage ratio,
/// rounded half away from zero, and capped at 10 (full power).
pub open spec fn spec_result_power(bw: int, bp: int, w: int) -> int {
    min_int((2 * (bp * bw) + w) / (2 * w), 10)
}

/// The whole computed setting. A scaled power of zero would ask for no
/// heating at all; the time then saturates to the widest representable
/// value, with zero seconds.
pub open spec fn spec_microwave_result(bw: int, bs: int, bp: int, w: int) -> MicrowaveResult {
    let rp = spec_result_power(bw, bp, w);
    if rp == 0 {
        MicrowaveResult { minutes: u32::MAX, seconds: 0, power: 0 }
    } else {
        let n = (bs * bw) * bp;
        let d = w * rp;
        MicrowaveResult {
            minutes: min_int(n / (60 * d), u32::MAX as int) as u32,
            seconds: ((2 * (n % (60 * d)) + d) / (2 * d)) as u32,
            power: rp as u32,
        }
    }
}

/// Computes the setting for the microwave at hand from the box's wattage,
/// total seconds and power level. The effective wattage of each microwave
/// is its wattage scaled by power over 10; the time scales by the ratio of
/// the two effective wattages.
pub fn calculate_microwave_time(
    box_wattage: u32,
    box_seconds: u32,
    box_power: u32,
    your_wattage: u32,
) -> (r: MicrowaveResult)
    requires
        your_wattage >= 1,
    ensures
        r == spec_microwave_result(
            box_wattage as int,
            box_seconds as int,
            box_power as int,
            your_wattage as int,
        ),
{
    let bw = box_wattage as u128;
    let bs = box_seconds as u128;
    let bp = box_power as u128;
    let w = your_wattage as u128;
    proof {
        assert(bp * bw < 0x10000000000000000) by (nonlinear_arith)
            requires
                bp < 0x100000000,
                bw < 0x100000000,
        ;
    }
    let a = bp * bw;
    let scaled = (2 * a + w) / (2 * w);
    let rp: u128 = if scaled < 10 {
        scaled
    } else {
        10
    };
    if rp == 0 {
        return MicrowaveResult { minutes: u32::MAX, seconds: 0, power: 0 };
    }
    proof {
        assert(bs * bw < 0x10000000000000000) by (nonlinear_arith)
            requires
                bs < 0x100000000,
                bw < 0x100000000,
        ;
        assert((bs * bw) * bp < 0x1000000000000000000000000) by (nonlinear_arith)
            requires
                bs * bw < 0x10000000000000000,
                bp < 0x100000000,
        ;
        assert(w * rp <= 0x100000000 * 10) by (nonlinear_arith)
            requires
                w < 0x100000000,
                rp <= 10,
        ;
    }
    let n = bs * bw * bp;
    let d = w * rp;
    proof {
        assert(w * rp >= 1) by (nonlinear_arith)
            requires
                w >= 1,
                rp >= 1,
        ;
    }
    let q = n / (60 * d);
    let minutes: u32 = if q < u32::MAX as u128 {
        q as u32
    } else {
        u32::MAX
    };
    let rem = n % (60 * d);
    let ghost di = d as int;
    let ghost remi = rem as int;
    proof {
        assert(remi < 60 * di);
        assert((2 * remi + di) / (2 * di) <= 60) by (nonlinear_arith)
            requires
                di >= 1,
                remi >= 0,
                remi < 60 * di,
        ;
    }
    let seconds = ((2 * rem + d) / (2 * d)) as u32;
    MicrowaveResult { minutes, seconds, power: rp as u32 }
}

/// The resolved inputs of one request, defaults filled in, and the computed
/// setting where the inputs allow one.
pub struct MicrowaveSettings {
    pub box_wattage: u32,
    pub box_minutes: u32,
    pub box_seconds: u32,
    pub box_power: u32,
    pub your_wattage: u32,
    pub result: Option<MicrowaveResult>,
}

/// The box power level, brought into the range 1 to 10.
pub open spec fn spec_clamped_power(bp: int) -> int {
    if bp < 1 {
        1
    } else if bp > 10 {
        10
    } else {
        bp
    }
}

/// Fills in the defaults (an 1100-watt box for one minute at full power, a
/// 900-watt microwave), clamps the power level, and computes the setting
/// when there is any time to scale and both wattages are positive.
pub fn resolve_microwave(q: &MicrowaveQuery) -> (r: MicrowaveSettings)
    requires
        60 * (match q.bm {
            Some(v) => v as int,
            None => 1,
        }) + (match q.bs {
            Some(v) => v as int,
            None => 0,
        }) <= u32::MAX,
    ensures
        r.box_wattage as int == match q.bw {
            Some(v) => v as int,
            None => 1100,
        },
        r.box_minutes as int == match q.bm {
            Some(v) => v as int,
            None => 1,
        },
        r.box_seconds as int == match q.bs {
            Some(v) => v as int,
            None => 0,
        },
        r.box_power as int == spec_clamped_power(
            match q.bp {
                Some(v) => v as int,
                None => 10,
            },
        ),
        r.your_wattage as int == match q.w {
            Some(v) => v as int,
            None => 900,
        },
        r.result is Some <==> (r.box_minutes * 60 + r.box_seconds > 0 && r.box_wattage > 0
            && r.your_wattage > 0),
        r.result matches Some(res) ==> res == spec_microwave_result(
            r.box_wattage as int,
            r.box_minutes as int * 60 + r.box_seconds as int,
            r.box_power as int,
            r.your_wattage as int,
        ),
{
    let box_wattage = match q.bw {
        Some(v) => v,
        None => 1100,
    };
    let box_minutes = match q.bm {
        Some(v) => v,
        None => 1,
    };
    let box_seconds = match q.bs {
        Some(v) => v,
        None => 0,
    };
    let bp_raw = match q.bp {
        Some(v) => v,
        None => 10,
    };
    let box_power = if bp_raw < 1 {
        1
    } else if bp_raw > 10 {
        10
    } else {
        bp_raw
    };
    let your_wattage = match q.w {
        Some(v) => v,
        None => 900,
    };
    let total_box_seconds = box_minutes * 60 + box_seconds;
    let result = if total_box_seconds > 0 && box_wattage > 0 && your_wattage > 0 {
        Some(calculate_microwave_time(box_wattage, total_box_seconds, box_power, your_wattage))
    } else {
        None
    };
    MicrowaveSettings { box_wattage, box_minutes, box_seconds, box_power, your_wattage, result }
}

} // verus!
