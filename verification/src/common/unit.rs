//! Units of measurement as powers of the base units.

use crate::common::number::is_digit;
use vstd::prelude::*;
use vstd::string::*;

verus! {

/// The powers of the base units in a unit, in the order mass, length, time,
/// temperature: `m/s` is `[0, 1, -1, 0]`.
pub type UnitBase = [i8; 4];

/// A unit of measurement: a product of powers of `kg`, `m`, `s` and `K`.
#[derive(Debug, PartialEq, Eq, Clone, Copy)]
pub struct Unit(UnitBase);

/// A text that is not a unit.
#[derive(Debug, PartialEq, Eq)]
pub struct UnitParseError {
    /// The text.
    pub unit: String,
}

/// The power that follows a base unit in a text, and what is left of the
/// text: after `^` one digit, else the power 1. `None` where `^` is not
/// followed by a digit.
pub open spec fn spec_power(s: Seq<u8>) -> Option<(Seq<u8>, int)> {
    if s.len() > 0 && s[0] == 94 {
        if s.len() >= 2 && is_digit(s[1]) {
            Some((s.skip(2), s[1] - 48))
        } else {
            None
        }
    } else {
        Some((s, 1))
    }
}

/// What has been read of a unit: the powers so far, and whether the next
/// base unit divides.
pub struct UnitState {
    /// The powers of mass, length, time and temperature.
    pub powers: Seq<int>,
    /// Whether a `/` came last, and no `*` since.
    pub dividing: bool,
}

/// The state after a base unit with the given place was read with what
/// follows it; `None` where the power is no digit or the sum of powers
/// leaves the range of a byte.
pub open spec fn with_base_unit(s: Seq<u8>, state: UnitState, place: int) -> Option<
    (Seq<u8>, UnitState),
> {
    match spec_power(s) {
        None => None,
        Some((rest, power)) => {
            let sum = if state.dividing {
                state.powers[place] - power
            } else {
                state.powers[place] + power
            };
            if -128 <= sum <= 127 {
                Some((rest, UnitState { powers: state.powers.update(place, sum), ..state }))
            } else {
                None
            }
        },
    }
}

/// One step through the text of a unit: a base unit `kg`, `m`, `s` or `K`
/// with its power, or one of the signs `*` and `/`. `None` for anything
/// else.
pub open spec fn spec_unit_step(s: Seq<u8>, state: UnitState) -> Option<(Seq<u8>, UnitState)> {
    if s.len() >= 2 && s[0] == 107 && s[1] == 103 {
        with_base_unit(s.skip(2), state, 0)
    } else if s.len() >= 1 && s[0] == 109 {
        with_base_unit(s.skip(1), state, 1)
    } else if s.len() >= 1 && s[0] == 115 {
        with_base_unit(s.skip(1), state, 2)
    } else if s.len() >= 1 && s[0] == 75 {
        with_base_unit(s.skip(1), state, 3)
    } else if s.len() >= 1 && s[0] == 42 {
        Some((s.skip(1), UnitState { dividing: false, ..state }))
    } else if s.len() >= 1 && s[0] == 47 {
        Some((s.skip(1), UnitState { dividing: true, ..state }))
    } else {
        None
    }
}

/// The powers that the rest of the text of a unit leaves, going on from a
/// state. The text is gone through step by step, and there is always at
/// least one step.
pub open spec fn spec_unit_from(s: Seq<u8>, state: UnitState) -> Option<Seq<int>>
    decreases s.len(),
{
    match spec_unit_step(s, state) {
        None => None,
        Some((rest, next)) => if rest.len() == 0 {
            Some(next.powers)
        } else if rest.len() < s.len() {
            spec_unit_from(rest, next)
        } else {
            None
        },
    }
}

/// The powers of the base units that the text of a unit denotes.
pub open spec fn spec_unit(s: Seq<u8>) -> Option<Seq<int>> {
    spec_unit_from(s, UnitState { powers: seq![0int, 0int, 0int, 0int], dividing: false })
}

/// The digit at the place `at` of a text.
pub fn first_char_to_i8(unit: &[u8], at: usize) -> (digit: Option<i8>)
    ensures
        at < unit@.len() && is_digit(unit@[at as int]) ==> digit == Some(
            (unit@[at as int] - 48) as i8,
        ),
        !(at < unit@.len() && is_digit(unit@[at as int])) ==> digit is None,
{
    if at < unit.len() && unit[at] >= 48 && unit[at] <= 57 {
        Some((unit[at] - 48) as i8)
    } else {
        None
    }
}

/// Reads the power that follows a base unit, from the place `at` on. Gives
/// the place after the power and the power.
pub fn read_and_remove_power(unit: &[u8], at: usize) -> (power: Option<(usize, i8)>)
    requires
        at <= unit@.len(),
    ensures
        match spec_power(unit@.skip(at as int)) {
            None => power is None,
            Some((rest, expected)) => power matches Some((after, found)) && found == expected
                && at <= after <= unit@.len() && unit@.skip(after as int) == rest && 0 <= found
                <= 9,
        },
{
    let ghost s = unit@.skip(at as int);
    if at < unit.len() && unit[at] == 94 {
        match first_char_to_i8(unit, at + 1) {
            None => None,
            Some(digit) => {
                proof {
                    assert(s[1] == unit@[at + 1]);
                    assert(s.skip(2) =~= unit@.skip(at + 2));
                }
                Some((at + 2, digit))
            },
        }
    } else {
        Some((at, 1))
    }
}

/// What has been read of a unit.
#[derive(Debug, Clone, Copy)]
pub struct UnitReader {
    /// The powers of mass, length, time and temperature so far.
    pub powers: UnitBase,
    /// Whether a `/` came last, and no `*` since.
    pub dividing: bool,
}

impl View for UnitReader {
    type V = UnitState;

    open spec fn view(&self) -> UnitState {
        UnitState { powers: Seq::new(4, |i: int| self.powers@[i] as int), dividing: self.dividing }
    }
}

/// Reads the power of the base unit with the given place, from `start` on,
/// and adds it to what has been read.
pub fn read_base_unit(unit: &[u8], start: usize, reader: UnitReader, place: usize) -> (next:
    Option<(usize, UnitReader)>)
    requires
        start <= unit@.len(),
        place < 4,
    ensures
        match with_base_unit(unit@.skip(start as int), reader@, place as int) {
            None => next is None,
            Some((rest, state)) => next matches Some((after, found)) && found@ == state
                && start <= after <= unit@.len() && unit@.skip(after as int) == rest,
        },
{
    match read_and_remove_power(unit, start) {
        None => None,
        Some((after, power)) => {
            let old: i8 = reader.powers[place];
            let sum: i16 = if reader.dividing {
                old as i16 - power as i16
            } else {
                old as i16 + power as i16
            };
            if sum < -128 || sum > 127 {
                return None;
            }
            let mut powers = reader.powers;
            powers[place] = sum as i8;
            let found = UnitReader { powers, dividing: reader.dividing };
            proof {
                assert(found@.powers =~= reader@.powers.update(place as int, sum as int));
            }
            Some((after, found))
        },
    }
}

/// Reads one step of the text of a unit, from `at` on.
pub fn read_unit_step(unit: &[u8], at: usize, reader: UnitReader) -> (next: Option<
    (usize, UnitReader),
>)
    requires
        at <= unit@.len(),
    ensures
        match spec_unit_step(unit@.skip(at as int), reader@) {
            None => next is None,
            Some((rest, state)) => next matches Some((after, found)) && found@ == state && at
                < after <= unit@.len() && unit@.skip(after as int) == rest,
        },
{
    let n = unit.len();
    let ghost rest = unit@.skip(at as int);
    proof {
        if at < n {
            assert(rest[0] == unit@[at as int]);
            assert(rest.skip(1) =~= unit@.skip(at + 1));
        }
        if n - at >= 2 {
            assert(rest[1] == unit@[at + 1]);
            assert(rest.skip(2) =~= unit@.skip(at + 2));
        }
    }
    if n - at >= 2 && unit[at] == 107 && unit[at + 1] == 103 {
        read_base_unit(unit, at + 2, reader, 0)
    } else if at < n && unit[at] == 109 {
        read_base_unit(unit, at + 1, reader, 1)
    } else if at < n && unit[at] == 115 {
        read_base_unit(unit, at + 1, reader, 2)
    } else if at < n && unit[at] == 75 {
        read_base_unit(unit, at + 1, reader, 3)
    } else if at < n && unit[at] == 42 {
        Some((at + 1, UnitReader { powers: reader.powers, dividing: false }))
    } else if at < n && unit[at] == 47 {
        Some((at + 1, UnitReader { powers: reader.powers, dividing: true }))
    } else {
        None
    }
}

impl Unit {
    /// The powers of the base units, in contracts.
    pub closed spec fn spec_powers(&self) -> Seq<int> {
        Seq::new(4, |i: int| self.0@[i] as int)
    }

    /// The unit with the given powers of mass, length, time and temperature.
    pub fn new(powers: UnitBase) -> (unit: Unit)
        ensures
            unit.spec_powers() == Seq::new(4, |i: int| powers@[i] as int),
    {
        Unit(powers)
    }

    /// The powers of mass, length, time and temperature.
    pub fn powers(&self) -> (powers: UnitBase)
        ensures
            Seq::new(4, |i: int| powers@[i] as int) == self.spec_powers(),
    {
        self.0
    }

    /// Reads a unit from its text.
    ///
    /// The text is a row of base units `kg`, `m`, `s` and `K`, each with a
    /// power of one digit after `^` where it is not 1. A base unit after `/`
    /// divides, and so do those that follow, up to the next `*`.
    pub fn from_str(s: &str) -> (unit: Result<Unit, UnitParseError>)
        ensures
            match spec_unit(s.spec_bytes()) {
                Some(powers) => unit matches Ok(found) && found.spec_powers() == powers,
                None => unit matches Err(error) && error.unit@ == s@,
            },
    {
        let text = s.as_bytes();
        let n = text.len();
        let mut reader = UnitReader { powers: [0i8, 0i8, 0i8, 0i8], dividing: false };
        let mut at: usize = 0;
        proof {
            assert(text@.skip(0) =~= text@);
            assert(reader@.powers =~= seq![0int, 0int, 0int, 0int]);
        }
        loop
            invariant
                at <= n,
                n == text@.len(),
                text@ == s.spec_bytes(),
                spec_unit(text@) == spec_unit_from(text@.skip(at as int), reader@),
            decreases n - at,
        {
            match read_unit_step(text, at, reader) {
                None => {
                    return Err(UnitParseError { unit: s.to_owned() });
                },
                Some((after, next)) => {
                    if after >= n {
                        return Ok(Unit(next.powers));
                    }
                    at = after;
                    reader = next;
                },
            }
        }
    }
}

/// Why a list of reference values fixes no reference dimensions.
#[derive(Debug, PartialEq, Eq, Clone, Copy, Structural)]
pub enum RefDimError {
    /// There are fewer values than base units in their units.
    UnderConstrained,
    /// There are more values than base units in their units.
    OverConstrained,
}

/// Whether the base unit with the given place has a power other than zero
/// in one of the units.
pub open spec fn base_unit_used(units: Seq<Unit>, place: int) -> bool {
    exists|u: int| 0 <= u < units.len() && (#[trigger] units[u]).spec_powers()[place] != 0
}

/// The places of the base units that the units use, from the first to the
/// last.
pub open spec fn spec_included_units(units: Seq<Unit>) -> Seq<usize> {
    seq![0usize, 1usize, 2usize, 3usize].filter(|place: usize| base_unit_used(units, place as int))
}

/// Whether the base unit with the given place is used by one of the units.
pub fn uses_base_unit(units: &[Unit], place: usize) -> (used: bool)
    requires
        place < 4,
    ensures
        used == base_unit_used(units@, place as int),
{
    let n = units.len();
    let mut u: usize = 0;
    while u < n
        invariant
            u <= n,
            n == units@.len(),
            place < 4,
            forall|k: int| 0 <= k < u ==> (#[trigger] units@[k]).spec_powers()[place as int] == 0,
        decreases n - u,
    {
        let powers = units[u].powers();
        if powers[place] != 0 {
            proof {
                assert(units@[u as int].spec_powers()[place as int] == powers@[place as int] as int);
            }
            return true;
        }
        proof {
            assert(units@[u as int].spec_powers()[place as int] == powers@[place as int] as int);
        }
        u = u + 1;
    }
    false
}

/// The base units that the units of a list of reference values use.
///
/// As many values are needed as their units use base units: with fewer the
/// reference dimensions are not fixed, with more they are fixed more than
/// once.
pub fn count_units(units: &[Unit]) -> (included: Result<Vec<usize>, RefDimError>)
    ensures
        units@.len() < spec_included_units(units@).len() <==> included == Err::<
            Vec<usize>,
            RefDimError,
        >(RefDimError::UnderConstrained),
        units@.len() > spec_included_units(units@).len() <==> included == Err::<
            Vec<usize>,
            RefDimError,
        >(RefDimError::OverConstrained),
        units@.len() == spec_included_units(units@).len() <==> included is Ok,
        included matches Ok(places) ==> places@ == spec_included_units(units@),
{
    let mut included: Vec<usize> = Vec::with_capacity(4);
    let ghost all = seq![0usize, 1usize, 2usize, 3usize];
    let ghost keep = |place: usize| base_unit_used(units@, place as int);
    let mut place: usize = 0;
    proof {
        assert(all.take(0) =~= Seq::<usize>::empty());
        assert(all.take(0).filter(keep) =~= Seq::<usize>::empty());
    }
    while place < 4
        invariant
            place <= 4,
            all == seq![0usize, 1usize, 2usize, 3usize],
            keep == |place: usize| base_unit_used(units@, place as int),
            included@ == all.take(place as int).filter(keep),
        decreases 4 - place,
    {
        proof {
            reveal(Seq::filter);
            assert(all.take(place + 1).drop_last() =~= all.take(place as int));
            assert(all.take(place + 1).last() == place);
        }
        if uses_base_unit(units, place) {
            included.push(place);
        }
        place = place + 1;
    }
    proof {
        assert(all.take(4) =~= all);
    }
    let n = units.len();
    if n < included.len() {
        Err(RefDimError::UnderConstrained)
    } else if n > included.len() {
        Err(RefDimError::OverConstrained)
    } else {
        Ok(included)
    }
}

} // verus!
