//! Header-pin numbering of the target board.
use vstd::prelude::*;

verus! {

/// The kernel GPIO line wired to header pin `pin`, if any.
pub open spec fn pin_line(pin: u64) -> Option<u64> {
    if pin == 1 {
        Some(508)
    } else if pin == 2 {
        Some(509)
    } else if pin == 4 {
        Some(378)
    } else if pin == 5 {
        Some(377)
    } else if pin == 6 {
        Some(371)
    } else if pin == 7 {
        Some(372)
    } else if pin == 9 {
        Some(375)
    } else if pin == 10 {
        Some(374)
    } else if pin == 11 {
        Some(373)
    } else if pin == 12 {
        Some(370)
    } else if pin == 14 {
        Some(425)
    } else if pin == 15 {
        Some(426)
    } else if pin == 16 {
        Some(496)
    } else if pin == 17 {
        Some(497)
    } else if pin == 19 {
        Some(494)
    } else if pin == 20 {
        Some(495)
    } else if pin == 21 {
        Some(503)
    } else if pin == 22 {
        Some(504)
    } else if pin == 24 {
        Some(502)
    } else if pin == 25 {
        Some(505)
    } else if pin == 26 {
        Some(507)
    } else if pin == 27 {
        Some(506)
    } else if pin == 29 {
        Some(356)
    } else if pin == 41 {
        Some(440)
    } else {
        None
    }
}

/// The GPIO line number of header pin `pin_num`, or 0 for a pin with no line.
pub fn gpio_get_pin(pin_num: u64) -> (r: u64)
    ensures
        r == match pin_line(pin_num) {
            Some(line) => line,
            None => 0,
        },
{
    match pin_num {
        1 => 508,
        2 => 509,
        4 => 378,
        5 => 377,
        6 => 371,
        7 => 372,
        9 => 375,
        10 => 374,
        11 => 373,
        12 => 370,
        14 => 425,
        15 => 426,
        16 => 496,
        17 => 497,
        19 => 494,
        20 => 495,
        21 => 503,
        22 => 504,
        24 => 502,
        25 => 505,
        26 => 507,
        27 => 506,
        29 => 356,
        41 => 440,
        _ => 0,
    }
}

} // verus!
