use vstd::prelude::*;

use crate::comm::micromouse_message::{
    CommandId, CommandMessage, FormatError, InterruptAction, InterruptStep, MeasurementInterrupt, MeasurementMessage,
    MicromouseResponse, MovementType,
};
use crate::comm::protocol::{
    action_parse, action_text, command_id_parse, command_id_text, command_message_parsed, command_message_text,
    direction_parse, first_bad_interrupt, interrupt_text, interrupt_token_parse, interrupts_text,
    measurement_message_text, occurrence_parse, response_parsed, step_parse, step_text,
};
use crate::comm::text::{decimal, is_white_space, signed_decimal, split_at_char, tokens};
use crate::comm::text_laws::{
    all_white_space, free_of, is_word, join_front, lemma_decimal, lemma_decimal_parses, lemma_digits_are_words,
    lemma_int_parse_decimal, lemma_join_front_push, lemma_split_three, lemma_split_two, lemma_tokens_of_join, no_white_space,
};
use crate::comm::micromouse_message::transform_measurement_spec;
use crate::map::measurement::{measurement_depth, measurement_hits_wall, MeasurementValue};
use crate::transform::direction::{relative_direction_text, transform_by_spec, RelativeDirection};
use crate::transform::position::MouseTransform;

verus! {

proof fn lemma_action_text(a: InterruptAction)
    ensures
        action_parse(action_text(a)) == Some(a),
        is_word(action_text(a)),
        free_of(action_text(a), '_'),
{
    reveal_strlit("CONTINUE");
    reveal_strlit("STOP-IF-OPEN");
    reveal_strlit("STOP-IF-BLOCKED");
    let t = action_text(a);
    assert forall|i: int| 0 <= i < t.len() implies !is_white_space(#[trigger] t[i]) && t[i] != '_' by {
        assert('-' <= t[i] && t[i] <= 'Z');
    }
    assert("CONTINUE"@ != "STOP-IF-OPEN"@) by {
        assert("CONTINUE"@.len() != "STOP-IF-OPEN"@.len());
    }
    assert("CONTINUE"@ != "STOP-IF-BLOCKED"@) by {
        assert("CONTINUE"@.len() != "STOP-IF-BLOCKED"@.len());
    }
    assert("STOP-IF-BLOCKED"@ != "STOP-IF-OPEN"@) by {
        assert("STOP-IF-BLOCKED"@.len() != "STOP-IF-OPEN"@.len());
    }
}

proof fn lemma_direction_text(d: RelativeDirection)
    ensures
        direction_parse(relative_direction_text(d)) == Some(d),
        is_word(relative_direction_text(d)),
        free_of(relative_direction_text(d), '_'),
{
    let t = relative_direction_text(d);
    assert(seq!['F'] != seq!['L'] && seq!['F'] != seq!['R'] && seq!['L'] != seq!['R']) by {
        assert(seq!['F'][0] != seq!['L'][0]);
        assert(seq!['F'][0] != seq!['R'][0]);
        assert(seq!['L'][0] != seq!['R'][0]);
    }
    assert(no_white_space(t));
}

proof fn lemma_step_text(s: InterruptStep)
    ensures
        step_parse(step_text(s)) == Some(s),
        is_word(step_text(s)),
        free_of(step_text(s), '_'),
{
    match s {
        InterruptStep::Each => {
            assert(no_white_space(seq!['X']));
        },
        InterruptStep::At(x) => {
            lemma_decimal(x as nat);
            lemma_decimal_parses(x as nat, u32::MAX as int);
            lemma_digits_are_words(decimal(x as nat));
            assert(decimal(x as nat) != seq!['X']) by {
                assert('0' <= decimal(x as nat)[0] <= '9');
            }
        },
    }
}

/// The text of an interrupt reads back as the same interrupt, and it is one word.
pub proof fn interrupt_text_reads_back(i: MeasurementInterrupt)
    ensures
        interrupt_token_parse(interrupt_text(i)) == Ok::<MeasurementInterrupt, Seq<char>>(i),
        is_word(interrupt_text(i)),
{
    let a = step_text(i.at_step);
    let b = relative_direction_text(i.direction);
    let c = action_text(i.action);
    lemma_step_text(i.at_step);
    lemma_direction_text(i.direction);
    lemma_action_text(i.action);
    lemma_split_three(a, b, c, '_');
    assert(split_at_char(interrupt_text(i), '_') == seq![a, b, c]);
    let t = interrupt_text(i);
    assert forall|k: int| 0 <= k < t.len() implies !is_white_space(#[trigger] t[k]) by {
        if k < a.len() {
            assert(t[k] == a[k]);
        } else if k == a.len() {
        } else if k < a.len() + 1 + b.len() {
            assert(t[k] == b[k - a.len() - 1]);
        } else if k == a.len() + 1 + b.len() {
        } else {
            assert(t[k] == c[k - a.len() - 2 - b.len()]);
        }
    }
}

proof fn lemma_command_id_text(id: CommandId)
    ensures
        command_id_parse(command_id_text(id)) == Some(id),
        is_word(command_id_text(id)),
{
    let d = decimal(id.0 as nat);
    let t = command_id_text(id);
    lemma_decimal(id.0 as nat);
    lemma_decimal_parses(id.0 as nat, u32::MAX as int);
    lemma_digits_are_words(d);
    assert(t.drop_first() =~= d);
    assert forall|k: int| 0 <= k < t.len() implies !is_white_space(#[trigger] t[k]) by {
        if k > 0 {
            assert(t[k] == d[k - 1]);
        }
    }
}

proof fn lemma_signed_decimal_word(v: int)
    ensures
        is_word(signed_decimal(v)),
{
    let a: nat = if v < 0 { (-v) as nat } else { v as nat };
    let d = decimal(a);
    lemma_decimal(a);
    lemma_digits_are_words(d);
    let t = signed_decimal(v);
    if v < 0 {
        assert forall|k: int| 0 <= k < t.len() implies !is_white_space(#[trigger] t[k]) by {
            if k > 0 {
                assert(t[k] == d[k - 1]);
            }
        }
    }
}

/// The texts of the first `n` interrupts of `ints`, one word each.
pub open spec fn interrupt_words(ints: Seq<MeasurementInterrupt>, n: int) -> Seq<Seq<char>> {
    Seq::new(n as nat, |k: int| interrupt_text(ints[k]))
}

proof fn lemma_join_interrupts(prefix: Seq<Seq<char>>, ints: Seq<MeasurementInterrupt>, n: int)
    requires
        prefix.len() > 0,
        0 <= n <= ints.len(),
    ensures
        join_front(prefix + interrupt_words(ints, n)) == join_front(prefix) + interrupts_text(ints, n),
    decreases n,
{
    if n == 0 {
        assert(prefix + interrupt_words(ints, 0) =~= prefix);
        assert(join_front(prefix) + Seq::<char>::empty() =~= join_front(prefix));
    } else {
        let before = prefix + interrupt_words(ints, n - 1);
        lemma_join_interrupts(prefix, ints, n - 1);
        assert(prefix + interrupt_words(ints, n) =~= before.push(interrupt_text(ints[n - 1])));
        lemma_join_front_push(before, interrupt_text(ints[n - 1]));
        assert(join_front(prefix) + interrupts_text(ints, n) =~= join_front(prefix) + interrupts_text(ints, n - 1)
            + seq![' '] + interrupt_text(ints[n - 1]));
    }
}

proof fn lemma_no_bad_interrupt(ms: Seq<Seq<char>>, k: int)
    requires
        0 <= k <= ms.len(),
        forall|i: int| k <= i < ms.len() ==> #[trigger] interrupt_token_parse(ms[i]) is Ok,
    ensures
        first_bad_interrupt(ms, k) == ms.len(),
    decreases ms.len() - k,
{
    if k < ms.len() {
        assert(interrupt_token_parse(ms[k]) is Ok);
        lemma_no_bad_interrupt(ms, k + 1);
    }
}

/// A command message reads back from its text as the same command: same id, same movement,
/// same interrupts in the same order, whatever white space follows the step count.
pub proof fn command_text_reads_back(
    m: CommandMessage,
    empty_tail: Seq<char>,
    r: Result<CommandMessage, FormatError<CommandMessage>>,
)
    requires
        all_white_space(empty_tail),
        command_message_parsed(command_message_text(m, empty_tail), r),
    ensures
        r matches Ok(back) && back.cmd_id == m.cmd_id && back.cmd.ty == m.cmd.ty && back.cmd.interrupts@
            == m.cmd.interrupts@,
{
    reveal_strlit("TURN");
    reveal_strlit("MOVE");
    reveal_strlit("MEASURE");
    reveal_strlit(" MEASURE");
    let (tyw, num) = match m.cmd.ty {
        MovementType::Turn(left) => ("TURN"@, left as int),
        MovementType::Move(fwd) => ("MOVE"@, fwd as int),
    };
    let ints = m.cmd.interrupts@;
    let n = ints.len() as int;
    let idw = command_id_text(m.cmd_id);
    let numw = signed_decimal(num);
    let head = seq![tyw, idw, numw];
    let text = command_message_text(m, empty_tail);
    assert(join_front(head) == tyw + seq![' '] + idw + seq![' '] + numw) by {
        assert(head.drop_first() =~= seq![idw, numw]);
        assert(seq![idw, numw].drop_first() =~= seq![numw]);
        assert(join_front(seq![numw]) == numw);
        assert(join_front(seq![idw, numw]) == idw + seq![' '] + numw);
        assert(tyw + seq![' '] + idw + seq![' '] + numw =~= tyw + seq![' '] + (idw + seq![' '] + numw));
    }
    lemma_command_id_text(m.cmd_id);
    lemma_signed_decimal_word(num);
    assert("MOVE"@ != "TURN"@) by {
        assert("MOVE"@[0] != "TURN"@[0]);
    }
    assert(is_word(tyw)) by {
        assert forall|k: int| 0 <= k < tyw.len() implies !is_white_space(#[trigger] tyw[k]) by {
            assert('E' <= tyw[k] <= 'V');
        }
    }
    let words = if n == 0 {
        head
    } else {
        head.push("MEASURE"@) + interrupt_words(ints, n)
    };
    assert forall|k: int| 0 <= k < words.len() implies is_word(#[trigger] words[k]) by {
        if k >= 4 {
            assert(words[k] == interrupt_text(ints[k - 4]));
            interrupt_text_reads_back(ints[k - 4]);
        } else if k == 3 {
            assert(words[k] == "MEASURE"@);
            assert forall|j: int| 0 <= j < words[k].len() implies !is_white_space(#[trigger] words[k][j]) by {
                assert('A' <= words[k][j] <= 'U');
            }
        } else {
            assert(words[k] == head[k]);
        }
    }
    if n == 0 {
        assert(text =~= join_front(head) + empty_tail);
        lemma_tokens_of_join(head, empty_tail);
    } else {
        let hm = head.push("MEASURE"@);
        lemma_join_front_push(head, "MEASURE"@);
        lemma_join_interrupts(hm, ints, n);
        assert(" MEASURE"@ =~= seq![' '] + "MEASURE"@);
        assert(text =~= join_front(words) + Seq::<char>::empty());
        assert(all_white_space(Seq::<char>::empty()));
        lemma_tokens_of_join(words, Seq::<char>::empty());
    }
    let toks = tokens(text);
    assert(toks == words);
    match m.cmd.ty {
        MovementType::Turn(left) => {
            lemma_int_parse_decimal(num, true, i8::MIN as int, i8::MAX as int);
        },
        MovementType::Move(fwd) => {
            lemma_int_parse_decimal(num, false, 0, u8::MAX as int);
        },
    }
    if n > 0 {
        let ms = toks.subrange(4, toks.len() as int);
        assert(ms =~= interrupt_words(ints, n));
        assert forall|i: int| 0 <= i < ms.len() implies #[trigger] interrupt_token_parse(ms[i])
            == Ok::<MeasurementInterrupt, Seq<char>>(ints[i]) by {
            interrupt_text_reads_back(ints[i]);
        }
        lemma_no_bad_interrupt(ms, 0);
        let back = r->Ok_0;
        assert(back.cmd.interrupts@ =~= ints) by {
            assert forall|i: int| 0 <= i < n implies back.cmd.interrupts@[i] == ints[i] by {
                assert(Ok::<MeasurementInterrupt, Seq<char>>(back.cmd.interrupts@[i]) == interrupt_token_parse(ms[i]));
            }
        }
    } else {
        assert(r->Ok_0.cmd.interrupts@ =~= ints);
    }
}

/// A measurement message reads back from the text the mouse sends for it as the same
/// measurement.
pub proof fn measurement_text_reads_back(
    m: MeasurementMessage,
    r: Result<MicromouseResponse, FormatError<MicromouseResponse>>,
)
    requires
        response_parsed(measurement_message_text(m), r),
    ensures
        r == Ok::<MicromouseResponse, FormatError<MicromouseResponse>>(MicromouseResponse::Measurement(m)),
{
    reveal_strlit("MEASUREMENT ");
    reveal_strlit("MEASUREMENT");
    reveal_strlit("SENSORLIMIT");
    reveal_strlit("CONTINUE");
    reveal_strlit("STOP");
    reveal_strlit("RESTART");
    reveal_strlit("DBG");
    let w0 = "MEASUREMENT"@;
    let idw = command_id_text(m.from_cmd);
    let stepw = decimal(m.interrupt.at_step as nat);
    let dirw = relative_direction_text(m.interrupt.direction);
    let occw = stepw + seq!['_'] + dirw;
    let depthw = decimal(m.depth as nat);
    let four = seq![w0, idw, occw, depthw];
    assert(join_front(four) == w0 + seq![' '] + idw + seq![' '] + occw + seq![' '] + depthw) by {
        assert(join_front(seq![w0]) == w0);
        lemma_join_front_push(seq![w0], idw);
        assert(seq![w0].push(idw) =~= seq![w0, idw]);
        lemma_join_front_push(seq![w0, idw], occw);
        assert(seq![w0, idw].push(occw) =~= seq![w0, idw, occw]);
        lemma_join_front_push(seq![w0, idw, occw], depthw);
        assert(seq![w0, idw, occw].push(depthw) =~= four);
    }
    let words = if m.is_sensorlimit {
        four.push("SENSORLIMIT"@)
    } else {
        four
    };
    lemma_command_id_text(m.from_cmd);
    lemma_decimal(m.interrupt.at_step as nat);
    lemma_decimal_parses(m.interrupt.at_step as nat, u32::MAX as int);
    lemma_digits_are_words(stepw);
    lemma_decimal(m.depth as nat);
    lemma_decimal_parses(m.depth as nat, u32::MAX as int);
    lemma_digits_are_words(depthw);
    lemma_direction_text(m.interrupt.direction);
    lemma_split_two(stepw, dirw, '_');
    assert(occurrence_parse(occw) == Some(m.interrupt)) by {
        assert(split_at_char(occw, '_') == seq![stepw, dirw]);
    }
    assert(is_word(occw)) by {
        assert forall|k: int| 0 <= k < occw.len() implies !is_white_space(#[trigger] occw[k]) by {
            if k < stepw.len() {
                assert(occw[k] == stepw[k]);
            } else if k > stepw.len() {
                assert(occw[k] == dirw[k - stepw.len() - 1]);
            }
        }
    }
    assert forall|k: int| 0 <= k < words.len() implies is_word(#[trigger] words[k]) by {
        if k == 0 || k == 4 {
            assert forall|j: int| 0 <= j < words[k].len() implies !is_white_space(#[trigger] words[k][j]) by {
                assert('A' <= words[k][j] <= 'U');
            }
        }
    }
    let text = measurement_message_text(m);
    if m.is_sensorlimit {
        lemma_join_front_push(four, "SENSORLIMIT"@);
        assert(text =~= join_front(words) + Seq::<char>::empty());
        assert(all_white_space(Seq::<char>::empty()));
        lemma_tokens_of_join(words, Seq::<char>::empty());
    } else {
        assert(text =~= join_front(words) + seq![' ']);
        assert(all_white_space(seq![' ']));
        lemma_tokens_of_join(words, seq![' ']);
    }
    let toks = tokens(text);
    assert(toks == words);
    assert(toks != seq!["CONTINUE"@] && toks != seq!["STOP"@] && toks != seq!["RESTART"@]) by {
        assert(seq!["CONTINUE"@].len() == 1);
        assert(seq!["STOP"@].len() == 1);
        assert(seq!["RESTART"@].len() == 1);
    }
    assert(w0 != "DBG"@) by {
        assert(w0.len() != "DBG"@.len());
    }
}


/// What a measurement the mouse reports claims: read from the text the mouse sends, a reading
/// without `SENSORLIMIT` becomes a wall exactly its depth ahead (`Value` of the depth), one
/// with `SENSORLIMIT` only free space for at least its depth (`OutsideRange`); the ray starts
/// where the mouse stands, in the absolute direction of the sensor.
pub proof fn measurement_reading_claims(
    m: MeasurementMessage,
    r: Result<MicromouseResponse, FormatError<MicromouseResponse>>,
    t: MouseTransform,
)
    requires
        response_parsed(measurement_message_text(m), r),
    ensures
        r matches Ok(MicromouseResponse::Measurement(p)) && {
            let meas = transform_measurement_spec(p, t);
            &&& !m.is_sensorlimit ==> meas.value == MeasurementValue::Value { cells: m.depth }
            &&& m.is_sensorlimit ==> meas.value == MeasurementValue::OutsideRange { at_least_cells: m.depth }
            &&& measurement_depth(meas.value) == m.depth
            &&& measurement_hits_wall(meas.value) == !m.is_sensorlimit
            &&& meas.position == t.pos
            &&& meas.direction == transform_by_spec(m.interrupt.direction, t.dir)
        },
{
    measurement_text_reads_back(m, r);
}

} // verus!
