use vstd::prelude::*;
use vstd::string::{StrSliceExecFns, StringExecFns};

use crate::comm::micromouse_message::{
    caused_by_text, Command, CommandFinishedMessage, CommandId, CommandMessage, InterruptAction,
    InterruptOccurence, InterruptStep, MeasurementInterrupt, MeasurementMessage, MeasurementOccurrence,
    MicromouseResponse, MovementType, FormatError,
};
use crate::comm::text::{
    append_decimal, append_signed_decimal, decimal, int_parse, join_spaced, parse_int, parse_unsigned,
    parse_unsigned_text, signed_decimal, split_at, split_at_char, split_white_space, tokens,
};
use crate::transform::direction::{relative_direction_text, RelativeDirection};

verus! {

/// The wire name of an interrupt action.
pub open spec fn action_text(a: InterruptAction) -> Seq<char> {
    match a {
        InterruptAction::Continue => "CONTINUE"@,
        InterruptAction::StopIfBlocked => "STOP-IF-BLOCKED"@,
        InterruptAction::StopIfOpen => "STOP-IF-OPEN"@,
    }
}

/// The wire text of a command id: `#` and the number.
pub open spec fn command_id_text(id: CommandId) -> Seq<char> {
    seq!['#'] + decimal(id.0 as nat)
}

/// The wire text of an interrupt step: `X` for every step, else the step number.
pub open spec fn step_text(s: InterruptStep) -> Seq<char> {
    match s {
        InterruptStep::Each => seq!['X'],
        InterruptStep::At(x) => decimal(x as nat),
    }
}

/// The wire text of an interrupt: step, direction and action, joined by `_`.
pub open spec fn interrupt_text(i: MeasurementInterrupt) -> Seq<char> {
    step_text(i.at_step) + seq!['_'] + relative_direction_text(i.direction) + seq!['_'] + action_text(i.action)
}

/// The texts of the first `n` interrupts, each after a space.
pub open spec fn interrupts_text(ints: Seq<MeasurementInterrupt>, n: int) -> Seq<char>
    decreases n,
{
    if n <= 0 {
        Seq::empty()
    } else {
        interrupts_text(ints, n - 1) + seq![' '] + interrupt_text(ints[n - 1])
    }
}

/// The wire text of a command message: movement, command id, step count and, if there are
/// interrupts, `MEASURE` and their texts; `empty_tail` is what follows the step count when
/// there are none.
pub open spec fn command_message_text(m: CommandMessage, empty_tail: Seq<char>) -> Seq<char> {
    let (ty, num) = match m.cmd.ty {
        MovementType::Turn(left) => ("TURN"@, left as int),
        MovementType::Move(fwd) => ("MOVE"@, fwd as int),
    };
    let ints = m.cmd.interrupts@;
    ty + seq![' '] + command_id_text(m.cmd_id) + seq![' '] + signed_decimal(num) + if ints.len() == 0 {
        empty_tail
    } else {
        " MEASURE"@ + interrupts_text(ints, ints.len() as int)
    }
}

/// The wire text of a measurement message, as the mouse sends it.
pub open spec fn measurement_message_text(m: MeasurementMessage) -> Seq<char> {
    "MEASUREMENT "@ + command_id_text(m.from_cmd) + seq![' '] + decimal(m.interrupt.at_step as nat) + seq!['_']
        + relative_direction_text(m.interrupt.direction) + seq![' '] + decimal(m.depth as nat) + seq![' '] + if m.is_sensorlimit {
        "SENSORLIMIT"@
    } else {
        Seq::empty()
    }
}

/// Reads a command id: `#` and a number.
pub open spec fn command_id_parse(s: Seq<char>) -> Option<CommandId> {
    if s.len() > 0 && s[0] == '#' {
        match parse_unsigned(s.drop_first(), u32::MAX as int) {
            Some(v) => Some(CommandId(v as u32)),
            None => None,
        }
    } else {
        None
    }
}

/// Reads an interrupt action by its wire name.
pub open spec fn action_parse(s: Seq<char>) -> Option<InterruptAction> {
    if s == "CONTINUE"@ {
        Some(InterruptAction::Continue)
    } else if s == "STOP-IF-OPEN"@ {
        Some(InterruptAction::StopIfOpen)
    } else if s == "STOP-IF-BLOCKED"@ {
        Some(InterruptAction::StopIfBlocked)
    } else {
        None
    }
}

/// Reads a relative direction by its letter.
pub open spec fn direction_parse(s: Seq<char>) -> Option<RelativeDirection> {
    if s == seq!['L'] {
        Some(RelativeDirection::Left)
    } else if s == seq!['R'] {
        Some(RelativeDirection::Right)
    } else if s == seq!['F'] {
        Some(RelativeDirection::Forward)
    } else {
        None
    }
}

/// Reads an interrupt step: `X` or a step number.
pub open spec fn step_parse(s: Seq<char>) -> Option<InterruptStep> {
    if s == seq!['X'] {
        Some(InterruptStep::Each)
    } else {
        match parse_unsigned(s, u32::MAX as int) {
            Some(v) => Some(InterruptStep::At(v as u32)),
            None => None,
        }
    }
}

/// Reads a measurement occurrence: a step number and a direction letter, joined by `_`.
pub open spec fn occurrence_parse(s: Seq<char>) -> Option<MeasurementOccurrence> {
    let parts = split_at_char(s, '_');
    if parts.len() == 2 && direction_parse(parts[1]) is Some {
        match parse_unsigned(parts[0], u32::MAX as int) {
            Some(v) => Some(MeasurementOccurrence { direction: direction_parse(parts[1]).unwrap(), at_step: v as u32 }),
            None => None,
        }
    } else {
        None
    }
}

/// The index of the last `c` in `s[..i]`, or -1.
pub open spec fn last_index_of(s: Seq<char>, c: char, i: int) -> int
    decreases i,
{
    if i <= 0 {
        -1
    } else if s[i - 1] == c {
        i - 1
    } else {
        last_index_of(s, c, i - 1)
    }
}

/// Reads an interrupt occurrence: an occurrence and an action, split at the last `_`; the error
/// is the text reported.
pub open spec fn interrupt_occurence_parse(s: Seq<char>) -> Result<InterruptOccurence, Seq<char>> {
    let k = last_index_of(s, '_', s.len() as int);
    if k < 0 {
        Err(s)
    } else {
        let action = s.subrange(k + 1, s.len() as int);
        let occ = s.subrange(0, k);
        match action_parse(action) {
            None => Err(s),
            Some(a) => match occurrence_parse(occ) {
                None => Err(caused_by_text(occ)),
                Some(o) => Ok(InterruptOccurence { occurence: o, action: a }),
            },
        }
    }
}

/// Whether `t` holds the text `lit`.
fn is_text(t: &String, lit: &str) -> (r: bool)
    ensures
        r == (t@ == lit@),
{
    *t == <String as StringExecFns>::from_str(lit)
}

impl CommandId {
    /// The wire text: `#` and the number.
    pub fn to_text(&self) -> (r: String)
        ensures
            r@ == command_id_text(*self),
    {
        proof {
            reveal_strlit("#");
        }
        let mut s = <String as StringExecFns>::from_str("#");
        append_decimal(&mut s, self.0 as u64);
        s
    }

    /// Reads a command id (see `command_id_parse`); the error holds the text.
    pub fn try_from_text(value: String) -> (r: Result<CommandId, FormatError<CommandId>>)
        ensures
            match command_id_parse(value@) {
                Some(id) => r == Ok::<CommandId, FormatError<CommandId>>(id),
                None => r matches Err(e) && e.text() == value@,
            },
    {
        let s = value.as_str();
        let n = s.unicode_len();
        if n > 0 && s.get_char(0) == '#' {
            let rest = s.substring_char(1, n);
            assert(rest@ =~= value@.drop_first());
            match parse_unsigned_text(rest, u32::MAX as u64) {
                Some(v) => Ok(CommandId(v as u32)),
                None => Err(FormatError::new(value)),
            }
        } else {
            Err(FormatError::new(value))
        }
    }
}

impl InterruptAction {
    /// The wire name of the action.
    pub fn as_text(&self) -> (r: &'static str)
        ensures
            r@ == action_text(*self),
    {
        match self {
            InterruptAction::Continue => "CONTINUE",
            InterruptAction::StopIfBlocked => "STOP-IF-BLOCKED",
            InterruptAction::StopIfOpen => "STOP-IF-OPEN",
        }
    }

    /// Reads an action by its wire name; the error holds the text.
    pub fn try_from_text(value: String) -> (r: Result<InterruptAction, FormatError<InterruptAction>>)
        ensures
            match action_parse(value@) {
                Some(a) => r == Ok::<InterruptAction, FormatError<InterruptAction>>(a),
                None => r matches Err(e) && e.text() == value@,
            },
    {
        if is_text(&value, "CONTINUE") {
            Ok(InterruptAction::Continue)
        } else if is_text(&value, "STOP-IF-OPEN") {
            Ok(InterruptAction::StopIfOpen)
        } else if is_text(&value, "STOP-IF-BLOCKED") {
            Ok(InterruptAction::StopIfBlocked)
        } else {
            Err(FormatError::new(value))
        }
    }
}

impl InterruptStep {
    /// The wire text: `X` for every step, else the step number.
    pub fn to_text(&self) -> (r: String)
        ensures
            r@ == step_text(*self),
    {
        proof {
            reveal_strlit("X");
        }
        match self {
            InterruptStep::Each => <String as StringExecFns>::from_str("X"),
            InterruptStep::At(x) => {
                let mut s = String::new();
                append_decimal(&mut s, *x as u64);
                s
            },
        }
    }

    /// Reads an interrupt step (see `step_parse`); the error holds the text.
    pub fn try_from_text(value: String) -> (r: Result<InterruptStep, FormatError<InterruptStep>>)
        ensures
            match step_parse(value@) {
                Some(st) => r == Ok::<InterruptStep, FormatError<InterruptStep>>(st),
                None => r matches Err(e) && e.text() == value@,
            },
    {
        proof {
            reveal_strlit("X");
            assert("X"@ =~= seq!['X']);
        }
        if is_text(&value, "X") {
            Ok(InterruptStep::Each)
        } else {
            match parse_unsigned_text(value.as_str(), u32::MAX as u64) {
                Some(v) => Ok(InterruptStep::At(v as u32)),
                None => Err(FormatError::new(value)),
            }
        }
    }
}

impl RelativeDirection {
    /// Reads a relative direction by its letter; the error holds the text.
    pub fn try_from_text(value: String) -> (r: Result<RelativeDirection, FormatError<RelativeDirection>>)
        ensures
            match direction_parse(value@) {
                Some(d) => r == Ok::<RelativeDirection, FormatError<RelativeDirection>>(d),
                None => r matches Err(e) && e.text() == value@,
            },
    {
        proof {
            reveal_strlit("L");
            reveal_strlit("R");
            reveal_strlit("F");
            assert("L"@ =~= seq!['L']);
            assert("R"@ =~= seq!['R']);
            assert("F"@ =~= seq!['F']);
        }
        if is_text(&value, "L") {
            Ok(RelativeDirection::Left)
        } else if is_text(&value, "R") {
            Ok(RelativeDirection::Right)
        } else if is_text(&value, "F") {
            Ok(RelativeDirection::Forward)
        } else {
            Err(FormatError::new(value))
        }
    }
}

impl MeasurementInterrupt {
    /// The wire text: step, direction and action, joined by `_`.
    pub fn to_text(&self) -> (r: String)
        ensures
            r@ == interrupt_text(*self),
    {
        proof {
            reveal_strlit("_");
        }
        let mut s = self.at_step.to_text();
        s.append("_");
        s.append(self.direction.as_str());
        s.append("_");
        s.append(self.action.as_text());
        s
    }
}

impl MeasurementOccurrence {
    /// Reads a measurement occurrence (see `occurrence_parse`); the error holds the text.
    pub fn try_from_text(value: String) -> (r: Result<MeasurementOccurrence, FormatError<MeasurementOccurrence>>)
        ensures
            match occurrence_parse(value@) {
                Some(o) => r == Ok::<MeasurementOccurrence, FormatError<MeasurementOccurrence>>(o),
                None => r matches Err(e) && e.text() == value@,
            },
    {
        let parts = split_at(value.as_str(), '_');
        if parts.len() == 2 {
            let dir = RelativeDirection::try_from_text(parts[1].clone());
            match dir {
                Ok(direction) => match parse_unsigned_text(parts[0].as_str(), u32::MAX as u64) {
                    Some(v) => Ok(MeasurementOccurrence { direction, at_step: v as u32 }),
                    None => Err(FormatError::new(value)),
                },
                Err(_) => Err(FormatError::new(value)),
            }
        } else {
            Err(FormatError::new(value))
        }
    }
}

/// The index of the last `c` in `s`, if any.
fn find_last(s: &str, c: char) -> (r: Option<usize>)
    ensures
        match r {
            Some(k) => k == last_index_of(s@, c, s@.len() as int) && k < s@.len(),
            None => last_index_of(s@, c, s@.len() as int) < 0,
        },
{
    let n = s.unicode_len();
    let mut i: usize = n;
    while i > 0
        invariant
            i <= n,
            n == s@.len(),
            last_index_of(s@, c, n as int) == last_index_of(s@, c, i as int),
        decreases i,
    {
        if s.get_char(i - 1) == c {
            return Some(i - 1);
        }
        i = i - 1;
    }
    None
}

impl InterruptOccurence {
    /// Reads an interrupt occurrence (see `interrupt_occurence_parse`).
    pub fn try_from_text(value: String) -> (r: Result<InterruptOccurence, FormatError<InterruptOccurence>>)
        ensures
            match interrupt_occurence_parse(value@) {
                Ok(o) => r == Ok::<InterruptOccurence, FormatError<InterruptOccurence>>(o),
                Err(t) => r matches Err(e) && e.text() == t,
            },
    {
        let s = value.as_str();
        let n = s.unicode_len();
        match find_last(s, '_') {
            None => Err(FormatError::new(value)),
            Some(k) => {
                let action_str = <String as StringExecFns>::from_str(s.substring_char(k + 1, n));
                let occ_str = <String as StringExecFns>::from_str(s.substring_char(0, k));
                match InterruptAction::try_from_text(action_str) {
                    Err(_) => Err(FormatError::new(value)),
                    Ok(action) => {
                        let occ = FormatError::caused_by(MeasurementOccurrence::try_from_text(occ_str));
                        match occ {
                            Ok(occurence) => Ok(InterruptOccurence { occurence, action }),
                            Err(e) => Err(e),
                        }
                    },
                }
            },
        }
    }
}

/// `r` is an error with text `t`.
pub open spec fn fails_with<T, E>(r: Result<T, FormatError<E>>, t: Seq<char>) -> bool {
    r matches Err(e) && e.text() == t
}

/// The index of the first token of `ids` that is no command id, or `ids.len()`.
pub open spec fn first_bad_id(ids: Seq<Seq<char>>, k: int) -> int
    decreases ids.len() - k,
{
    if k >= ids.len() {
        ids.len() as int
    } else if command_id_parse(ids[k]) is None {
        k
    } else {
        first_bad_id(ids, k + 1)
    }
}

/// How the text `s` of a message of the mouse reads: `r` is what it denotes, or the error
/// reading it gives.
pub open spec fn response_parsed(s: Seq<char>, r: Result<MicromouseResponse, FormatError<MicromouseResponse>>) -> bool {
    let toks = tokens(s);
    if toks == seq!["CONTINUE"@] {
        r == Ok::<MicromouseResponse, FormatError<MicromouseResponse>>(MicromouseResponse::Continue)
    } else if toks == seq!["STOP"@] {
        r == Ok::<MicromouseResponse, FormatError<MicromouseResponse>>(MicromouseResponse::Stop)
    } else if toks == seq!["RESTART"@] {
        r == Ok::<MicromouseResponse, FormatError<MicromouseResponse>>(MicromouseResponse::Restart)
    } else if toks.len() >= 1 && toks[0] == "DBG"@ {
        r matches Ok(MicromouseResponse::Debug(m)) && m@ == join_spaced(toks.subrange(1, toks.len() as int))
    } else if toks.len() >= 1 && toks[0] == "MEASUREMENT"@ && (toks.len() == 4 || (toks.len() == 5 && toks[4]
        == "SENSORLIMIT"@)) {
        match command_id_parse(toks[1]) {
            None => fails_with(r, caused_by_text(toks[1])),
            Some(id) => match occurrence_parse(toks[2]) {
                None => fails_with(r, caused_by_text(toks[2])),
                Some(o) => match parse_unsigned(toks[3], u32::MAX as int) {
                    None => fails_with(r, s),
                    Some(d) => r == Ok::<MicromouseResponse, FormatError<MicromouseResponse>>(
                        MicromouseResponse::Measurement(
                            MeasurementMessage { from_cmd: id, interrupt: o, depth: d as u32, is_sensorlimit: toks.len() == 5 },
                        ),
                    ),
                },
            },
        }
    } else if toks.len() >= 1 && toks[0] == "CMD-FINISHED"@ && (toks.len() == 2 || toks.len() == 3) {
        match command_id_parse(toks[1]) {
            None => fails_with(r, caused_by_text(toks[1])),
            Some(id) => if toks.len() == 2 {
                r == Ok::<MicromouseResponse, FormatError<MicromouseResponse>>(
                    MicromouseResponse::CommandFinished(CommandFinishedMessage { cmd_id: id, reason: None }),
                )
            } else {
                match interrupt_occurence_parse(toks[2]) {
                    Err(t) => fails_with(r, caused_by_text(t)),
                    Ok(o) => r == Ok::<MicromouseResponse, FormatError<MicromouseResponse>>(
                        MicromouseResponse::CommandFinished(CommandFinishedMessage { cmd_id: id, reason: Some(o) }),
                    ),
                }
            },
        }
    } else if toks.len() == 2 && toks[0] == "BATTERY"@ {
        match parse_unsigned(toks[1], u8::MAX as int) {
            None => fails_with(r, toks[1]),
            Some(b) => r == Ok::<MicromouseResponse, FormatError<MicromouseResponse>>(MicromouseResponse::Battery(b as u8)),
        }
    } else if toks.len() >= 2 && toks[0] == "DESYNC"@ {
        let ids = toks.subrange(1, toks.len() as int);
        let k = first_bad_id(ids, 0);
        if k < ids.len() {
            fails_with(r, caused_by_text(ids[k]))
        } else {
            r matches Ok(MicromouseResponse::Desync(v)) && v@.len() == ids.len() && forall|i: int|
                0 <= i < ids.len() ==> Some(#[trigger] v@[i]) == command_id_parse(ids[i])
        }
    } else {
        fails_with(r, s)
    }
}

/// Reads one interrupt of a command message: step, direction and action joined by `_`; the
/// error is the text reported.
pub open spec fn interrupt_token_parse(t: Seq<char>) -> Result<MeasurementInterrupt, Seq<char>> {
    let parts = split_at_char(t, '_');
    if parts.len() != 3 {
        Err(t)
    } else {
        match step_parse(parts[0]) {
            None => Err(parts[0]),
            Some(at) => match direction_parse(parts[1]) {
                None => Err(parts[1]),
                Some(dir) => match action_parse(parts[2]) {
                    None => Err(parts[2]),
                    Some(a) => Ok(MeasurementInterrupt { direction: dir, at_step: at, action: a }),
                },
            },
        }
    }
}

/// The index of the first of `ms[k..]` that is no interrupt, or `ms.len()`.
pub open spec fn first_bad_interrupt(ms: Seq<Seq<char>>, k: int) -> int
    decreases ms.len() - k,
{
    if k >= ms.len() {
        ms.len() as int
    } else if interrupt_token_parse(ms[k]) is Err {
        k
    } else {
        first_bad_interrupt(ms, k + 1)
    }
}

/// How the text `s` of a command message reads: `r` is the command it denotes, or the error
/// reading it gives.
pub open spec fn command_message_parsed(s: Seq<char>, r: Result<CommandMessage, FormatError<CommandMessage>>) -> bool {
    let toks = tokens(s);
    if toks.len() < 3 || !(toks[0] == "TURN"@ || toks[0] == "MOVE"@) {
        fails_with(r, s)
    } else {
        let is_turn = toks[0] == "TURN"@;
        let count = if is_turn {
            int_parse(toks[2], true, i8::MIN as int, i8::MAX as int)
        } else {
            int_parse(toks[2], false, 0, u8::MAX as int)
        };
        match count {
            Err(t) => fails_with(r, t),
            Ok(n) => {
                let ty = if is_turn {
                    MovementType::Turn(n as i8)
                } else {
                    MovementType::Move(n as u8)
                };
                match command_id_parse(toks[1]) {
                    None => fails_with(r, toks[1]),
                    Some(id) => if toks.len() == 3 {
                        r matches Ok(m) && m.cmd_id == id && m.cmd.ty == ty && m.cmd.interrupts@.len() == 0
                    } else if toks[3] != "MEASURE"@ {
                        fails_with(r, s)
                    } else {
                        let ms = toks.subrange(4, toks.len() as int);
                        let k = first_bad_interrupt(ms, 0);
                        if k < ms.len() {
                            fails_with(r, interrupt_token_parse(ms[k])->Err_0)
                        } else {
                            r matches Ok(m) && m.cmd_id == id && m.cmd.ty == ty && m.cmd.interrupts@.len() == ms.len()
                                && forall|i: int|
                                0 <= i < ms.len() ==> Ok::<MeasurementInterrupt, Seq<char>>(#[trigger] m.cmd.interrupts@[i])
                                    == interrupt_token_parse(ms[i])
                        }
                    },
                }
            },
        }
    }
}

/// The tokens after the first, joined with single spaces.
fn join_tokens(toks: &Vec<String>, ts: Ghost<Seq<Seq<char>>>) -> (r: String)
    requires
        toks@.len() == ts@.len(),
        toks@.len() >= 1,
        forall|k: int| 0 <= k < toks@.len() ==> (#[trigger] toks@[k])@ == ts@[k],
    ensures
        r@ == join_spaced(ts@.subrange(1, ts@.len() as int)),
{
    let n = toks.len();
    let mut msg = String::new();
    let mut i: usize = 1;
    assert(ts@.subrange(1, 1) =~= Seq::<Seq<char>>::empty());
    while i < n
        invariant
            1 <= i <= n,
            n == toks@.len(),
            n == ts@.len(),
            forall|k: int| 0 <= k < n ==> (#[trigger] toks@[k])@ == ts@[k],
            msg@ == join_spaced(ts@.subrange(1, i as int)),
        decreases n - i,
    {
        proof {
            reveal_strlit(" ");
            assert(" "@ =~= seq![' ']);
        }
        let ghost prev = ts@.subrange(1, i as int);
        if i > 1 {
            msg.append(" ");
        }
        msg.append(toks[i].as_str());
        proof {
            let next = ts@.subrange(1, i + 1);
            assert(next.drop_last() =~= prev);
            assert(next.last() == ts@[i as int]);
            if i == 1 {
                assert(next.len() == 1);
                assert(msg@ =~= next[0]);
            } else {
                assert(msg@ =~= join_spaced(prev) + seq![' '] + ts@[i as int]);
            }
        }
        i = i + 1;
    }
    msg
}

/// The command ids of the tokens after the first; the error names the first that is none.
fn parse_ids(toks: &Vec<String>, ts: Ghost<Seq<Seq<char>>>) -> (r: Result<Vec<CommandId>, FormatError<MicromouseResponse>>)
    requires
        toks@.len() == ts@.len(),
        toks@.len() >= 1,
        forall|k: int| 0 <= k < toks@.len() ==> (#[trigger] toks@[k])@ == ts@[k],
    ensures
        ({
            let ids = ts@.subrange(1, ts@.len() as int);
            let k = first_bad_id(ids, 0);
            if k < ids.len() {
                fails_with(r, caused_by_text(ids[k]))
            } else {
                r matches Ok(v) && v@.len() == ids.len() && forall|i: int|
                    0 <= i < ids.len() ==> Some(#[trigger] v@[i]) == command_id_parse(ids[i])
            }
        }),
{
    let n = toks.len();
    let ghost ids = ts@.subrange(1, n as int);
    let mut des: Vec<CommandId> = Vec::new();
    let mut i: usize = 1;
    while i < n
        invariant
            1 <= i <= n,
            n == toks@.len(),
            n == ts@.len(),
            ids == ts@.subrange(1, n as int),
            forall|k: int| 0 <= k < n ==> (#[trigger] toks@[k])@ == ts@[k],
            first_bad_id(ids, 0) == first_bad_id(ids, i - 1),
            des@.len() == i - 1,
            forall|k: int| 0 <= k < i - 1 ==> Some(#[trigger] des@[k]) == command_id_parse(ids[k]),
        decreases n - i,
    {
        assert(ids[i - 1] == ts@[i as int]);
        let id = match FormatError::<MicromouseResponse>::caused_by(CommandId::try_from_text(toks[i].clone())) {
            Ok(id) => id,
            Err(e) => {
                return Err(e);
            },
        };
        des.push(id);
        i = i + 1;
    }
    Ok(des)
}

/// The interrupts of the tokens from the fifth on; the error is the text of the first
/// failure (see `interrupt_token_parse`).
fn parse_interrupt_tokens(toks: &Vec<String>, ts: Ghost<Seq<Seq<char>>>) -> (r: Result<Vec<MeasurementInterrupt>, String>)
    requires
        toks@.len() == ts@.len(),
        toks@.len() >= 4,
        forall|k: int| 0 <= k < toks@.len() ==> (#[trigger] toks@[k])@ == ts@[k],
    ensures
        ({
            let ms = ts@.subrange(4, ts@.len() as int);
            let k = first_bad_interrupt(ms, 0);
            if k < ms.len() {
                r matches Err(t) && t@ == interrupt_token_parse(ms[k])->Err_0
            } else {
                r matches Ok(v) && v@.len() == ms.len() && forall|i: int|
                    0 <= i < ms.len() ==> Ok::<MeasurementInterrupt, Seq<char>>(#[trigger] v@[i]) == interrupt_token_parse(ms[i])
            }
        }),
{
    let n = toks.len();
    let ghost ms = ts@.subrange(4, n as int);
    let mut parsed: Vec<MeasurementInterrupt> = Vec::new();
    let mut k: usize = 4;
    while k < n
        invariant
            4 <= k <= n,
            n == toks@.len(),
            n == ts@.len(),
            ms == ts@.subrange(4, n as int),
            forall|j: int| 0 <= j < n ==> (#[trigger] toks@[j])@ == ts@[j],
            first_bad_interrupt(ms, 0) == first_bad_interrupt(ms, k - 4),
            parsed@.len() == k - 4,
            forall|j: int| 0 <= j < k - 4 ==> Ok::<MeasurementInterrupt, Seq<char>>(#[trigger] parsed@[j]) == interrupt_token_parse(ms[j]),
        decreases n - k,
    {
        assert(ms[k - 4] == ts@[k as int]);
        let parts = split_at(toks[k].as_str(), '_');
        if parts.len() != 3 {
            return Err(toks[k].clone());
        }
        let at = match InterruptStep::try_from_text(parts[0].clone()) {
            Ok(a) => a,
            Err(e) => {
                return Err(e.into_text());
            },
        };
        let dir = match RelativeDirection::try_from_text(parts[1].clone()) {
            Ok(d) => d,
            Err(e) => {
                return Err(e.into_text());
            },
        };
        let action = match InterruptAction::try_from_text(parts[2].clone()) {
            Ok(a) => a,
            Err(e) => {
                return Err(e.into_text());
            },
        };
        parsed.push(MeasurementInterrupt { at_step: at, direction: dir, action });
        k = k + 1;
    }
    Ok(parsed)
}

impl MicromouseResponse {
    /// Reads a message of the mouse (see `response_parsed`).
    #[verifier::rlimit(40)]
    pub fn try_from_text(value: String) -> (r: Result<MicromouseResponse, FormatError<MicromouseResponse>>)
        ensures
            response_parsed(value@, r),
    {
        let toks = split_white_space(value.as_str());
        let ghost ts = tokens(value@);
        let n = toks.len();
        proof {
            assert(n == ts.len());
        }
        if n == 1 && is_text(&toks[0], "CONTINUE") {
            assert(ts =~= seq!["CONTINUE"@]);
            return Ok(MicromouseResponse::Continue);
        }
        assert(ts != seq!["CONTINUE"@]) by {
            if ts == seq!["CONTINUE"@] {
                assert(ts.len() == 1 && ts[0] == "CONTINUE"@);
            }
        }
        if n == 1 && is_text(&toks[0], "STOP") {
            assert(ts =~= seq!["STOP"@]);
            return Ok(MicromouseResponse::Stop);
        }
        assert(ts != seq!["STOP"@]) by {
            if ts == seq!["STOP"@] {
                assert(ts.len() == 1 && ts[0] == "STOP"@);
            }
        }
        if n == 1 && is_text(&toks[0], "RESTART") {
            assert(ts =~= seq!["RESTART"@]);
            return Ok(MicromouseResponse::Restart);
        }
        assert(ts != seq!["RESTART"@]) by {
            if ts == seq!["RESTART"@] {
                assert(ts.len() == 1 && ts[0] == "RESTART"@);
            }
        }
        if n >= 1 && is_text(&toks[0], "DBG") {
            return Ok(MicromouseResponse::Debug(join_tokens(&toks, Ghost(ts))));
        }
        if n >= 1 && is_text(&toks[0], "MEASUREMENT") && (n == 4 || (n == 5 && is_text(&toks[4], "SENSORLIMIT"))) {
            let from_cmd = match FormatError::<MicromouseResponse>::caused_by(CommandId::try_from_text(toks[1].clone())) {
                Ok(id) => id,
                Err(e) => {
                    return Err(e);
                },
            };
            let interrupt = match FormatError::<MicromouseResponse>::caused_by(
                MeasurementOccurrence::try_from_text(toks[2].clone()),
            ) {
                Ok(o) => o,
                Err(e) => {
                    return Err(e);
                },
            };
            let depth = match parse_unsigned_text(toks[3].as_str(), u32::MAX as u64) {
                Some(d) => d as u32,
                None => {
                    return Err(FormatError::new(value));
                },
            };
            return Ok(MicromouseResponse::Measurement(MeasurementMessage { from_cmd, interrupt, depth, is_sensorlimit: n == 5 }));
        }
        if n >= 1 && is_text(&toks[0], "CMD-FINISHED") && (n == 2 || n == 3) {
            let cmd_id = match FormatError::<MicromouseResponse>::caused_by(CommandId::try_from_text(toks[1].clone())) {
                Ok(id) => id,
                Err(e) => {
                    return Err(e);
                },
            };
            if n == 2 {
                return Ok(MicromouseResponse::CommandFinished(CommandFinishedMessage { cmd_id, reason: None }));
            }
            let reason = match FormatError::<MicromouseResponse>::caused_by(InterruptOccurence::try_from_text(toks[2].clone())) {
                Ok(o) => o,
                Err(e) => {
                    return Err(e);
                },
            };
            return Ok(MicromouseResponse::CommandFinished(CommandFinishedMessage { cmd_id, reason: Some(reason) }));
        }
        if n == 2 && is_text(&toks[0], "BATTERY") {
            return match parse_unsigned_text(toks[1].as_str(), u8::MAX as u64) {
                Some(b) => Ok(MicromouseResponse::Battery(b as u8)),
                None => Err(FormatError::new(toks[1].clone())),
            };
        }
        if n >= 2 && is_text(&toks[0], "DESYNC") {
            return match parse_ids(&toks, Ghost(ts)) {
                Ok(des) => Ok(MicromouseResponse::Desync(des)),
                Err(e) => Err(e),
            };
        }
        Err(FormatError::new(value))
    }
}

impl CommandMessage {
    /// Reads a command message (see `command_message_parsed`).
    #[verifier::rlimit(40)]
    pub fn try_from_text(value: String) -> (r: Result<CommandMessage, FormatError<CommandMessage>>)
        ensures
            command_message_parsed(value@, r),
    {
        let toks = split_white_space(value.as_str());
        let ghost ts = tokens(value@);
        let n = toks.len();
        if n < 3 || !(is_text(&toks[0], "TURN") || is_text(&toks[0], "MOVE")) {
            return Err(FormatError::new(value));
        }
        let is_turn = is_text(&toks[0], "TURN");
        let ty = if is_turn {
            match parse_int(toks[2].as_str(), true, i8::MIN as i64, i8::MAX as i64) {
                Ok(v) => {
                    let v8: i8 = v as i8;
                    assert(v8 as int == v as int);
                    MovementType::Turn(v8)
                },
                Err(t) => {
                    return Err(FormatError::new(t));
                },
            }
        } else {
            match parse_int(toks[2].as_str(), false, 0, u8::MAX as i64) {
                Ok(v) => {
                    let v8: u8 = v as u8;
                    assert(v8 as int == v as int);
                    MovementType::Move(v8)
                },
                Err(t) => {
                    return Err(FormatError::new(t));
                },
            }
        };
        let cmd_id = match CommandId::try_from_text(toks[1].clone()) {
            Ok(id) => id,
            Err(e) => {
                return Err(FormatError::new(e.into_text()));
            },
        };
        if n == 3 {
            return Ok(CommandMessage { cmd: Command { ty, interrupts: Vec::new() }, cmd_id });
        }
        if !is_text(&toks[3], "MEASURE") {
            return Err(FormatError::new(value));
        }
        let parsed = match parse_interrupt_tokens(&toks, Ghost(ts)) {
            Ok(p) => p,
            Err(t) => {
                return Err(FormatError::new(t));
            },
        };
        Ok(CommandMessage { cmd: Command { ty, interrupts: parsed }, cmd_id })
    }

    /// The wire text of the command (see `command_message_text`), with nothing after the step
    /// count when there are no interrupts.
    pub fn to_text(&self) -> (r: String)
        ensures
            r@ == command_message_text(*self, Seq::empty()),
    {
        proof {
            reveal_strlit("");
            assert(""@ =~= Seq::<char>::empty());
        }
        self.text_with_tail("")
    }

    /// The text sent to the mouse for the command: like `to_text`, but with a space after the
    /// step count when there are no interrupts.
    pub fn to_frame_text(&self) -> (r: String)
        ensures
            r@ == command_message_text(*self, seq![' ']),
    {
        proof {
            reveal_strlit(" ");
            assert(" "@ =~= seq![' ']);
        }
        self.text_with_tail(" ")
    }

    fn text_with_tail(&self, empty_tail: &str) -> (r: String)
        ensures
            r@ == command_message_text(*self, empty_tail@),
    {
        proof {
            reveal_strlit(" ");
        }
        let (ty_str, num): (&str, i64) = match self.cmd.ty {
            MovementType::Turn(left) => ("TURN", left as i64),
            MovementType::Move(fwd) => ("MOVE", fwd as i64),
        };
        let mut s = <String as StringExecFns>::from_str(ty_str);
        s.append(" ");
        s.append(self.cmd_id.to_text().as_str());
        s.append(" ");
        append_signed_decimal(&mut s, num);
        let ghost head = s@;
        let ints = &self.cmd.interrupts;
        if ints.len() == 0 {
            s.append(empty_tail);
        } else {
            s.append(" MEASURE");
            let mut k: usize = 0;
            while k < ints.len()
                invariant
                    k <= ints.len(),
                    s@ == head + " MEASURE"@ + interrupts_text(ints@, k as int),
                decreases ints.len() - k,
            {
                proof {
                    reveal_strlit(" ");
                    assert(" "@ =~= seq![' ']);
                }
                s.append(" ");
                s.append(ints[k].to_text().as_str());
                k = k + 1;
            }
        }
        s
    }
}

impl MeasurementMessage {
    /// The wire text of the measurement, as the mouse sends it.
    pub fn to_text(&self) -> (r: String)
        ensures
            r@ == measurement_message_text(*self),
    {
        proof {
            reveal_strlit(" ");
            reveal_strlit("_");
        }
        let mut s = <String as StringExecFns>::from_str("MEASUREMENT ");
        s.append(self.from_cmd.to_text().as_str());
        s.append(" ");
        append_decimal(&mut s, self.interrupt.at_step as u64);
        s.append("_");
        s.append(self.interrupt.direction.as_str());
        s.append(" ");
        append_decimal(&mut s, self.depth as u64);
        s.append(" ");
        if self.is_sensorlimit {
            s.append("SENSORLIMIT");
        }
        s
    }
}

} // verus!
