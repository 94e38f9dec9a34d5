//! Names and one-line descriptions of the strategies, as shown for a step.
use vstd::prelude::*;
use vstd::string::StringExecFns;
use crate::candidates::{digits_of, lemma_digits_of, mask_values};
use crate::order::{StrategyKind, param_ok};
use crate::text::string_push;

verus! {

/// The character of a digit 0..=9.
pub open spec fn digit_char(d: int) -> char {
    (48 + d) as char
}

/// Digits separated by ", ".
pub open spec fn joined(ds: Seq<u8>) -> Seq<char>
    decreases ds.len(),
{
    if ds.len() == 0 {
        Seq::empty()
    } else if ds.len() == 1 {
        seq![digit_char(ds[0] as int)]
    } else {
        joined(ds.drop_last()) + seq![',', ' ', digit_char(ds.last() as int)]
    }
}

/// The digits of a mask separated by ", ", or "?" for none.
pub open spec fn csv_text(mask: u16) -> Seq<char> {
    if digits_of(mask).len() == 0 {
        seq!['?']
    } else {
        joined(digits_of(mask))
    }
}

fn format_mask_values_csv(mask: u16) -> (out: String)
    ensures out@ == csv_text(mask),
{
    let vals = mask_values(mask);
    proof {
        lemma_digits_of(mask);
    }
    let mut out = String::new();
    if vals.len() == 0 {
        string_push(&mut out, '?');
        return out;
    }
    for k in 0..vals.len()
        invariant
            vals@ == digits_of(mask),
            forall|i: int| 0 <= i < digits_of(mask).len() ==> 1 <= #[trigger] digits_of(mask)[i] <= 9,
            out@ == joined(vals@.take(k as int)),
    {
        let d = vals[k];
        let ch = (48u8 + d) as char;
        proof {
            assert(vals@.take(k + 1).drop_last() == vals@.take(k as int));
            assert(vals@.take(k + 1).last() == d);
        }
        if k > 0 {
            string_push(&mut out, ',');
            string_push(&mut out, ' ');
        }
        string_push(&mut out, ch);
        proof {
            assert(ch == digit_char(d as int));
            if k == 0 {
                assert(out@ =~= joined(vals@.take(1)));
            } else {
                assert(out@ =~= joined(vals@.take(k + 1)));
            }
        }
    }
    proof {
        assert(vals@.take(vals@.len() as int) == vals@);
    }
    out
}

/// The name of a strategy.
pub open spec fn name_text(kind: StrategyKind) -> Seq<char> {
    match kind {
        StrategyKind::Single => "Single"@,
        StrategyKind::Sure => "SureCandidates"@,
        StrategyKind::Stranded => "StrandedDigits"@,
        StrategyKind::Split => "SplitCompartment"@,
        StrategyKind::MindGap => "MindTheGap"@,
        StrategyKind::RangeCheck => "CompartmentRangeCheck"@,
        StrategyKind::NakedSet => "NakedSet"@,
        StrategyKind::HiddenSet => "HiddenSet"@,
        StrategyKind::Locked => "LockedCompartments"@,
        StrategyKind::Sea => "SeaCreature"@,
        StrategyKind::Unique => "UniqueSolutionConstraint"@,
        StrategyKind::Setti => "SettiRule"@,
        StrategyKind::SettiConsider => "SettiConsider"@,
        StrategyKind::SettiSet => "SettiSet"@,
        StrategyKind::YWing => "YWing"@,
        StrategyKind::BinaryGuess => "BinaryGuess"@,
    }
}

pub(crate) fn strategy_name(kind: StrategyKind) -> (out: String)
    ensures out@ == name_text(kind),
{
    let name = match kind {
        StrategyKind::Single => "Single",
        StrategyKind::Sure => "SureCandidates",
        StrategyKind::Stranded => "StrandedDigits",
        StrategyKind::Split => "SplitCompartment",
        StrategyKind::MindGap => "MindTheGap",
        StrategyKind::RangeCheck => "CompartmentRangeCheck",
        StrategyKind::NakedSet => "NakedSet",
        StrategyKind::HiddenSet => "HiddenSet",
        StrategyKind::Locked => "LockedCompartments",
        StrategyKind::Sea => "SeaCreature",
        StrategyKind::Unique => "UniqueSolutionConstraint",
        StrategyKind::Setti => "SettiRule",
        StrategyKind::SettiConsider => "SettiConsider",
        StrategyKind::SettiSet => "SettiSet",
        StrategyKind::YWing => "YWing",
        StrategyKind::BinaryGuess => "BinaryGuess",
    };
    String::from_str(name)
}

/// A title followed by " (length N)".
pub open spec fn with_length(title: Seq<char>, param: int) -> Seq<char> {
    title + " (length "@ + seq![digit_char(param)] + ")"@
}

/// The description of a step of `kind` with `param`, where `removed` is the
/// union of the candidates the step removed.
pub open spec fn description_text(kind: StrategyKind, param: int, removed: u16) -> Seq<char> {
    match kind {
        StrategyKind::Single => "Single Candidate Left"@,
        StrategyKind::Sure => "Sure Candidates"@,
        StrategyKind::Stranded => with_length("Stranded Digits"@, param),
        StrategyKind::Split => with_length("Split Compartment"@, param),
        StrategyKind::MindGap => with_length("Mind The Gap"@, param),
        StrategyKind::RangeCheck => with_length("Compartment Range Check"@, param),
        StrategyKind::NakedSet => "Naked Set: "@ + csv_text(removed),
        StrategyKind::HiddenSet => "Hidden Set: "@ + csv_text(removed),
        StrategyKind::Locked => "Locked Compartments"@,
        StrategyKind::Sea => if param == 2 {
            "X-Wing"@
        } else if param == 3 {
            "Swordfish"@
        } else if param == 4 {
            "Jellyfish"@
        } else if param == 5 {
            "Squirmbag"@
        } else {
            with_length("Sea Creature"@, param)
        },
        StrategyKind::Unique => "Unique Solution Constraint"@,
        StrategyKind::Setti => "Setti Rule"@,
        StrategyKind::SettiConsider => "Setti Consider"@,
        StrategyKind::SettiSet => "Setti Set"@,
        StrategyKind::YWing => "Y-Wing"@,
        StrategyKind::BinaryGuess => "Binary Guess"@,
    }
}

/// How many lines the sea creature named `name` spans: the X-Wing two, the
/// Swordfish three, the Jellyfish four, the Squirmbag five (0: no such name).
pub open spec fn fish_lines(name: Seq<char>) -> int {
    if name == "X-Wing"@ {
        2
    } else if name == "Swordfish"@ {
        3
    } else if name == "Jellyfish"@ {
        4
    } else if name == "Squirmbag"@ {
        5
    } else {
        0
    }
}

/// A sea-creature step on `param` lines, 2 to 5, is described by the name of
/// the fish that spans that many lines.
pub proof fn law_fish_names(param: int, removed: u16)
    requires 2 <= param <= 5,
    ensures fish_lines(description_text(StrategyKind::Sea, param, removed)) == param,
{
    reveal_strlit("X-Wing");
    reveal_strlit("Swordfish");
    reveal_strlit("Jellyfish");
    reveal_strlit("Squirmbag");
    assert("Swordfish"@ != "X-Wing"@) by {
        assert("Swordfish"@.len() != "X-Wing"@.len());
    }
    assert("Jellyfish"@ != "X-Wing"@) by {
        assert("Jellyfish"@.len() != "X-Wing"@.len());
    }
    assert("Jellyfish"@ != "Swordfish"@) by {
        assert("Jellyfish"@[0] != "Swordfish"@[0]);
    }
    assert("Squirmbag"@ != "X-Wing"@) by {
        assert("Squirmbag"@.len() != "X-Wing"@.len());
    }
    assert("Squirmbag"@ != "Swordfish"@) by {
        assert("Squirmbag"@[1] != "Swordfish"@[1]);
    }
    assert("Squirmbag"@ != "Jellyfish"@) by {
        assert("Squirmbag"@[0] != "Jellyfish"@[0]);
    }
}

/// A step of a strategy that works on compartments of a given length ends
/// its description with that length as a digit, then ")".
pub proof fn law_length_shown(kind: StrategyKind, param: int, removed: u16)
    requires
        1 <= param <= 9,
        kind == StrategyKind::Stranded || kind == StrategyKind::Split || kind == StrategyKind::MindGap || kind == StrategyKind::RangeCheck,
    ensures ({
        let d = description_text(kind, param, removed);
        &&& d.len() >= 2
        &&& d[d.len() - 1] == ')'
        &&& d[d.len() - 2] as int - '0' as int == param
    }),
{
    reveal_strlit(")");
    let d = description_text(kind, param, removed);
    let t = match kind {
        StrategyKind::Stranded => "Stranded Digits"@,
        StrategyKind::Split => "Split Compartment"@,
        StrategyKind::MindGap => "Mind The Gap"@,
        _ => "Compartment Range Check"@,
    };
    let a = t + " (length "@;
    assert(d == a + seq![digit_char(param)] + ")"@);
    assert((a + seq![digit_char(param)] + ")"@).len() == a.len() + 2);
    assert(d[d.len() - 1] == ")"@[0]);
    assert(d[d.len() - 2] == digit_char(param));
}

fn titled_length(title: &str, param: usize) -> (out: String)
    requires param <= 9,
    ensures out@ == with_length(title@, param as int),
{
    let mut out = String::from_str(title);
    out.append(" (length ");
    string_push(&mut out, (48u8 + param as u8) as char);
    out.append(")");
    out
}

/// The description of a step; `removed_union` is the union of the candidates
/// it removed.
pub(crate) fn build_strategy_description(kind: StrategyKind, param: usize, removed_union: u16) -> (out: String)
    requires param_ok(kind, param as int),
    ensures
        out@ == description_text(kind, param as int, removed_union),
        kind == StrategyKind::Sea && 2 <= param <= 5 ==> fish_lines(out@) == param,
{
    proof {
        if kind == StrategyKind::Sea && 2 <= param <= 5 {
            law_fish_names(param as int, removed_union);
        }
    }
    match kind {
        StrategyKind::Single => String::from_str("Single Candidate Left"),
        StrategyKind::Sure => String::from_str("Sure Candidates"),
        StrategyKind::Stranded => titled_length("Stranded Digits", param),
        StrategyKind::Split => titled_length("Split Compartment", param),
        StrategyKind::MindGap => titled_length("Mind The Gap", param),
        StrategyKind::RangeCheck => titled_length("Compartment Range Check", param),
        StrategyKind::NakedSet => {
            let mut out = String::from_str("Naked Set: ");
            let csv = format_mask_values_csv(removed_union);
            out.append(csv.as_str());
            out
        },
        StrategyKind::HiddenSet => {
            let mut out = String::from_str("Hidden Set: ");
            let csv = format_mask_values_csv(removed_union);
            out.append(csv.as_str());
            out
        },
        StrategyKind::Locked => String::from_str("Locked Compartments"),
        StrategyKind::Sea => {
            if param == 2 {
                String::from_str("X-Wing")
            } else if param == 3 {
                String::from_str("Swordfish")
            } else if param == 4 {
                String::from_str("Jellyfish")
            } else if param == 5 {
                String::from_str("Squirmbag")
            } else {
                titled_length("Sea Creature", param)
            }
        },
        StrategyKind::Unique => String::from_str("Unique Solution Constraint"),
        StrategyKind::Setti => String::from_str("Setti Rule"),
        StrategyKind::SettiConsider => String::from_str("Setti Consider"),
        StrategyKind::SettiSet => String::from_str("Setti Set"),
        StrategyKind::YWing => String::from_str("Y-Wing"),
        StrategyKind::BinaryGuess => String::from_str("Binary Guess"),
    }
}

} // verus!
