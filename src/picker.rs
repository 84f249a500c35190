//! The decisions of choosing a host to connect to: reading a typed index,
//! moving through the interactive list, and the label a host is shown by.
use vstd::prelude::*;
use crate::model::{ServerConfig, ServerView};
use crate::text::{chars_of, decimal, decimal_chars, parse_num, parse_num_chars, string_of};
use crate::text::{sub_vec, trim, trim_bounds};

verus! {

/// Why a typed line does not choose a host.
#[derive(Debug, Clone, Copy, PartialEq, Eq)]
pub enum SelectionError {
    /// The line is not a number.
    NotANumber,
    /// The number is not below the number of hosts.
    OutOfRange,
}

/// The index that a typed line chooses among `count` hosts: the trimmed
/// line read as a decimal number, which must be below `count`.
pub open spec fn selection_of(input: Seq<char>, count: nat) -> Result<nat, SelectionError> {
    match parse_num(trim(input), usize::MAX as nat) {
        Some(n) => if n < count {
            Ok(n)
        } else {
            Err(SelectionError::OutOfRange)
        },
        None => Err(SelectionError::NotANumber),
    }
}

/// Reads a line typed at the prompt as the index of one of `count` hosts.
pub fn parse_selection(input: &str, count: usize) -> (r: Result<usize, SelectionError>)
    ensures
        match r {
            Ok(n) => selection_of(input@, count as nat) == Ok::<nat, SelectionError>(n as nat),
            Err(e) => selection_of(input@, count as nat) == Err::<nat, SelectionError>(e),
        },
{
    let chars = chars_of(input);
    let (a, b) = trim_bounds(&chars);
    let line = sub_vec(&chars, a, b);
    match parse_num_chars(&line, usize::MAX) {
        Some(n) => if n < count {
            Ok(n)
        } else {
            Err(SelectionError::OutOfRange)
        },
        None => Err(SelectionError::NotANumber),
    }
}

/// A key pressed in the interactive list.
#[derive(Debug, Clone, Copy, PartialEq, Eq)]
pub enum PickerKey {
    Up,
    Down,
    Enter,
    /// Escape, or Ctrl-C.
    Cancel,
    /// Any other key.
    Other,
}

/// What the interactive list does after a key.
#[derive(Debug, Clone, Copy, PartialEq, Eq)]
pub enum PickerStep {
    /// Keep showing the list with this entry highlighted.
    Continue(usize),
    /// Connect to this entry.
    Chosen(usize),
    /// Leave without choosing.
    Cancelled,
}

/// The list's response to `key` with entry `selection` of `count`
/// highlighted: the arrows move one entry and stop at either end.
pub open spec fn picker_next(selection: usize, count: usize, key: PickerKey) -> PickerStep {
    match key {
        PickerKey::Up => if selection > 0 {
            PickerStep::Continue((selection - 1) as usize)
        } else {
            PickerStep::Continue(selection)
        },
        PickerKey::Down => if selection + 1 < count {
            PickerStep::Continue((selection + 1) as usize)
        } else {
            PickerStep::Continue(selection)
        },
        PickerKey::Enter => PickerStep::Chosen(selection),
        PickerKey::Cancel => PickerStep::Cancelled,
        PickerKey::Other => PickerStep::Continue(selection),
    }
}

/// Handles one key of the interactive list of `count` entries, which is
/// never empty; the entry it highlights or chooses is always one of them.
pub fn picker_step(selection: usize, count: usize, key: PickerKey) -> (r: PickerStep)
    requires
        selection < count,
    ensures
        r == picker_next(selection, count, key),
        match r {
            PickerStep::Continue(i) => i < count,
            PickerStep::Chosen(i) => i < count,
            PickerStep::Cancelled => true,
        },
{
    match key {
        PickerKey::Up => if selection > 0 {
            PickerStep::Continue(selection - 1)
        } else {
            PickerStep::Continue(selection)
        },
        PickerKey::Down => if selection < count - 1 {
            PickerStep::Continue(selection + 1)
        } else {
            PickerStep::Continue(selection)
        },
        PickerKey::Enter => PickerStep::Chosen(selection),
        PickerKey::Cancel => PickerStep::Cancelled,
        PickerKey::Other => PickerStep::Continue(selection),
    }
}

/// `<user>@<hostname>:<port>`
pub open spec fn target_label(h: ServerView) -> Seq<char> {
    h.user + seq!['@'] + h.hostname + seq![':'] + decimal(h.port as nat)
}

/// The connection target of `h` as it is shown: `<user>@<hostname>:<port>`.
pub fn connection_label(h: &ServerConfig) -> (r: String)
    ensures
        r@ == target_label(h@),
{
    let mut out = chars_of(h.user.as_str());
    out.push('@');
    let hostname = chars_of(h.hostname.as_str());
    let mut i: usize = 0;
    let ghost start = out@;
    while i < hostname.len()
        invariant
            i <= hostname.len(),
            out@ == start + hostname@.subrange(0, i as int),
        decreases hostname.len() - i,
    {
        out.push(hostname[i]);
        i += 1;
        assert(out@ =~= start + hostname@.subrange(0, i as int));
    }
    out.push(':');
    let digits = decimal_chars(h.port);
    let ghost before_digits = out@;
    let mut k: usize = 0;
    while k < digits.len()
        invariant
            k <= digits.len(),
            out@ == before_digits + digits@.subrange(0, k as int),
        decreases digits.len() - k,
    {
        out.push(digits[k]);
        k += 1;
        assert(out@ =~= before_digits + digits@.subrange(0, k as int));
    }
    assert(hostname@.subrange(0, hostname@.len() as int) =~= hostname@);
    assert(digits@.subrange(0, digits@.len() as int) =~= digits@);
    assert(out@ =~= target_label(h@));
    string_of(out.as_slice())
}

} // verus!
