//! Musical note names of MIDI note numbers.

use vstd::prelude::*;
use crate::text::{decimal, push_signed_decimal, signed_decimal};

verus! {

/// The name of pitch class `pc` (0 is C, 9 is A).
pub open spec fn pitch_class_text(pc: int) -> Seq<char> {
    if pc == 0 {
        "C"@
    } else if pc == 1 {
        "C#"@
    } else if pc == 2 {
        "D"@
    } else if pc == 3 {
        "D#"@
    } else if pc == 4 {
        "E"@
    } else if pc == 5 {
        "F"@
    } else if pc == 6 {
        "F#"@
    } else if pc == 7 {
        "G"@
    } else if pc == 8 {
        "G#"@
    } else if pc == 9 {
        "A"@
    } else if pc == 10 {
        "A#"@
    } else {
        "B"@
    }
}

/// Division of `a` by the positive `d`, rounded toward zero.
pub open spec fn div_toward_zero(a: int, d: int) -> int {
    if a >= 0 {
        a / d
    } else {
        -((-a) / d)
    }
}

/// The octave number written after a note name: MIDI note 60 is in
/// octave 4; the quotient by 12 is rounded toward zero.
pub open spec fn octave_of(midi: int) -> int {
    div_toward_zero(midi, 12) - 1
}

/// The name of MIDI note `midi`, such as `A4` for 69 or `C#5` for 73.
pub open spec fn note_text(midi: int) -> Seq<char> {
    pitch_class_text(midi % 12) + signed_decimal(octave_of(midi))
}

fn pitch_class_name(pc: u32) -> (s: &'static str)
    requires
        pc < 12,
    ensures
        s@ == pitch_class_text(pc as int),
{
    if pc == 0 {
        "C"
    } else if pc == 1 {
        "C#"
    } else if pc == 2 {
        "D"
    } else if pc == 3 {
        "D#"
    } else if pc == 4 {
        "E"
    } else if pc == 5 {
        "F"
    } else if pc == 6 {
        "F#"
    } else if pc == 7 {
        "G"
    } else if pc == 8 {
        "G#"
    } else if pc == 9 {
        "A"
    } else if pc == 10 {
        "A#"
    } else {
        "B"
    }
}

/// The name and octave of a MIDI note number.
pub fn note_name(midi: i32) -> (s: String)
    ensures
        s@ == note_text(midi as int),
        midi >= 0 ==> s@ == pitch_class_text(midi as int % 12) + signed_decimal(midi as int / 12 - 1),
{
    let m = midi as i64;
    let (pc, q): (u32, i64) = if m >= 0 {
        ((m % 12) as u32, m / 12)
    } else {
        let a: i64 = -m;
        let r: i64 = a % 12;
        let pc: u32 = if r == 0 {
            0
        } else {
            (12 - r) as u32
        };
        proof {
            vstd::arithmetic::div_mod::lemma_fundamental_div_mod(a as int, 12);
            vstd::arithmetic::div_mod::lemma_fundamental_div_mod(m as int, 12);
        }
        (pc, -(a / 12))
    };
    assert(pc as int == (midi as int) % 12);
    proof {
        if midi >= 0 {
            lemma_note_octave(midi as int);
        }
    }
    let mut s = String::new();
    s.append(pitch_class_name(pc));
    push_signed_decimal(&mut s, q - 1);
    s
}

/// Twelve semitones up is the same note one octave higher, for every
/// note number from 0 up.
pub proof fn lemma_octave_up(midi: int)
    requires
        midi >= 0,
    ensures
        (midi + 12) % 12 == midi % 12,
        octave_of(midi + 12) == octave_of(midi) + 1,
        pitch_class_text((midi + 12) % 12) == pitch_class_text(midi % 12),
{
    vstd::arithmetic::div_mod::lemma_fundamental_div_mod(midi, 12);
    vstd::arithmetic::div_mod::lemma_fundamental_div_mod(midi + 12, 12);
    vstd::arithmetic::div_mod::lemma_mod_pos_bound(midi, 12);
    vstd::arithmetic::div_mod::lemma_mod_pos_bound(midi + 12, 12);
}

/// From note 0 up, the octave number is the floor of the note number over
/// twelve, minus one: octave `o` holds the notes from `12 * (o + 1)` up to
/// `12 * (o + 2)`, so the octave changes exactly at every C; the name is the
/// pitch class followed by that number.
pub proof fn lemma_note_octave(midi: int)
    requires
        midi >= 0,
    ensures
        12 * (octave_of(midi) + 1) <= midi < 12 * (octave_of(midi) + 2),
        midi == 12 * (octave_of(midi) + 1) + midi % 12,
        (midi + 1) % 12 != 0 ==> octave_of(midi + 1) == octave_of(midi),
        (midi + 1) % 12 == 0 ==> octave_of(midi + 1) == octave_of(midi) + 1,
        midi >= 12 ==> note_text(midi) == pitch_class_text(midi % 12) + decimal(
            (midi / 12 - 1) as nat,
        ),
        midi < 12 ==> note_text(midi) == pitch_class_text(midi % 12) + seq!['-', '1'],
{
    vstd::arithmetic::div_mod::lemma_fundamental_div_mod(midi, 12);
    vstd::arithmetic::div_mod::lemma_fundamental_div_mod(midi + 1, 12);
    vstd::arithmetic::div_mod::lemma_mod_pos_bound(midi, 12);
    vstd::arithmetic::div_mod::lemma_mod_pos_bound(midi + 1, 12);
    if midi < 12 {
        assert(decimal(1) == seq!['1']);
        assert(signed_decimal(-1) =~= seq!['-', '1']);
    }
}

/// The twelve pitch classes are the naturals C D E F G A B in rising order,
/// one letter each, and each of the five others is the natural below it
/// sharpened.
pub proof fn lemma_pitch_classes(pc: int)
    requires
        0 <= pc < 12,
    ensures
        pc == 1 || pc == 3 || pc == 6 || pc == 8 || pc == 10 ==> pitch_class_text(pc)
            == pitch_class_text(pc - 1) + seq!['#'],
        !(pc == 1 || pc == 3 || pc == 6 || pc == 8 || pc == 10) ==> pitch_class_text(pc)
            == seq![seq!['C', 'D', 'E', 'F', 'G', 'A', 'B'][(pc + pc / 5) / 2]],
{
    reveal_strlit("C");
    reveal_strlit("C#");
    reveal_strlit("D");
    reveal_strlit("D#");
    reveal_strlit("E");
    reveal_strlit("F");
    reveal_strlit("F#");
    reveal_strlit("G");
    reveal_strlit("G#");
    reveal_strlit("A");
    reveal_strlit("A#");
    reveal_strlit("B");
    assert(pitch_class_text(pc) =~= pitch_class_text(pc));
    if pc == 1 {
        assert("C#"@ =~= "C"@ + seq!['#']);
    } else if pc == 3 {
        assert("D#"@ =~= "D"@ + seq!['#']);
    } else if pc == 6 {
        assert("F#"@ =~= "F"@ + seq!['#']);
    } else if pc == 8 {
        assert("G#"@ =~= "G"@ + seq!['#']);
    } else if pc == 10 {
        assert("A#"@ =~= "A"@ + seq!['#']);
    } else if pc == 0 {
        assert("C"@ =~= seq!['C']);
    } else if pc == 2 {
        assert("D"@ =~= seq!['D']);
    } else if pc == 4 {
        assert("E"@ =~= seq!['E']);
    } else if pc == 5 {
        assert("F"@ =~= seq!['F']);
    } else if pc == 7 {
        assert("G"@ =~= seq!['G']);
    } else if pc == 9 {
        assert("A"@ =~= seq!['A']);
    } else {
        assert("B"@ =~= seq!['B']);
    }
}

} // verus!
