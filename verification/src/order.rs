//! The list of strategies, from easiest to hardest, and running one of them.
use vstd::prelude::*;
use crate::basic::{comps_single, mindgap_bites, naked_single, range_bites, stranded_bites, sure_bites, use_compartment_range_check, use_mind_the_gap, use_single, use_split_compartment, use_stranded_digits, use_sure_candidates};
use crate::board::{HumanStr8ts, comps_view};
use crate::hardness::{
    H_BINARY_GUESS, H_LOCKED, H_SETTI, H_SETTI_CONSIDER, H_SETTI_SET, H_SINGLE, H_SURE_CANDIDATES, H_UNIQUE, H_YWING,
    hidden_set_h, hidden_set_hardness, mindgap_h, mindgap_hardness, naked_set_h, naked_set_hardness, range_check_h,
    range_check_hardness, sea_creature_h, sea_creature_hardness, split_h, split_hardness, stranded_h, stranded_hardness,
};
use crate::mask::is_digit;
use crate::moves::strategy_done;
use crate::sets::{hidden_anywhere, locked_line_bites, naked_anywhere, rect_found, sea_anywhere, ywing_found, use_hidden_set, use_locked_compartments, use_naked_set, use_sea_creature, use_unique_solution_constraint, use_ywing};
use crate::setti::{consider_applies, rule_bites, setti_set_anywhere, use_setti_consider, use_setti_set, use_settis_rule};
use vstd::seq_lib::to_multiset_insert;

verus! {

/// The human strategies.
#[derive(Debug, Clone, Copy, PartialEq, Eq, Structural)]
pub enum StrategyKind {
    Single,
    Sure,
    Stranded,
    Split,
    MindGap,
    RangeCheck,
    NakedSet,
    HiddenSet,
    Locked,
    Sea,
    Unique,
    Setti,
    SettiConsider,
    SettiSet,
    YWing,
    BinaryGuess,
}

/// One entry of the strategy list: a strategy with its parameter (a
/// compartment length or a set size), its hardness and its place in the
/// list as first written down.
#[derive(Debug, Clone, Copy)]
pub struct StrategySpec {
    pub hardness: i32,
    pub kind: StrategyKind,
    pub param: usize,
    pub order: i32,
}

/// The hardness of a strategy with its parameter.
pub open spec fn kind_h(kind: StrategyKind, param: int) -> int {
    match kind {
        StrategyKind::Single => H_SINGLE as int,
        StrategyKind::Sure => H_SURE_CANDIDATES as int,
        StrategyKind::Stranded => stranded_h(param),
        StrategyKind::Split => split_h(param),
        StrategyKind::MindGap => mindgap_h(param),
        StrategyKind::RangeCheck => range_check_h(param),
        StrategyKind::NakedSet => naked_set_h(param),
        StrategyKind::HiddenSet => hidden_set_h(param),
        StrategyKind::Locked => H_LOCKED as int,
        StrategyKind::Sea => sea_creature_h(param),
        StrategyKind::Unique => H_UNIQUE as int,
        StrategyKind::Setti => H_SETTI as int,
        StrategyKind::SettiConsider => H_SETTI_CONSIDER as int,
        StrategyKind::SettiSet => H_SETTI_SET as int,
        StrategyKind::YWing => H_YWING as int,
        StrategyKind::BinaryGuess => H_BINARY_GUESS as int,
    }
}

/// The parameter suits the strategy: a length 1..=9 where one is needed, 0 otherwise.
pub open spec fn param_ok(kind: StrategyKind, param: int) -> bool {
    match kind {
        StrategyKind::Stranded | StrategyKind::Split | StrategyKind::MindGap | StrategyKind::RangeCheck
        | StrategyKind::NakedSet | StrategyKind::HiddenSet | StrategyKind::Sea => 1 <= param <= 9,
        _ => param == 0,
    }
}

pub open spec fn entry(kind: StrategyKind, param: int, order: int) -> StrategySpec {
    StrategySpec { hardness: kind_h(kind, param) as i32, kind, param: param as usize, order: order as i32 }
}

/// Entries for parameters `lo..=hi`, numbered from `order0`.
pub open spec fn run(kind: StrategyKind, lo: int, hi: int, order0: int) -> Seq<StrategySpec> {
    Seq::new((hi - lo + 1) as nat, |i: int| entry(kind, lo + i, order0 + i))
}

/// The strategies in the order they are written down.
pub open spec fn listed_specs() -> Seq<StrategySpec> {
    seq![entry(StrategyKind::Single, 0, 1), entry(StrategyKind::Sure, 0, 2)]
        + run(StrategyKind::Stranded, 2, 9, 3)
        + run(StrategyKind::Split, 3, 9, 11)
        + run(StrategyKind::MindGap, 2, 9, 18)
        + run(StrategyKind::RangeCheck, 2, 9, 26)
        + run(StrategyKind::NakedSet, 2, 5, 34)
        + run(StrategyKind::HiddenSet, 2, 5, 38)
        + seq![entry(StrategyKind::Locked, 0, 42)]
        + run(StrategyKind::Sea, 2, 5, 43)
        + seq![
            entry(StrategyKind::Unique, 0, 47),
            entry(StrategyKind::Setti, 0, 48),
            entry(StrategyKind::SettiConsider, 0, 49),
            entry(StrategyKind::SettiSet, 0, 50),
            entry(StrategyKind::YWing, 0, 51),
            entry(StrategyKind::BinaryGuess, 0, 52),
        ]
}

/// `a` comes no later than `b`: by hardness, then by listing order.
pub open spec fn spec_le(a: StrategySpec, b: StrategySpec) -> bool {
    a.hardness < b.hardness || (a.hardness == b.hardness && a.order <= b.order)
}

pub open spec fn sorted_specs(v: Seq<StrategySpec>) -> bool {
    forall|i: int, j: int| 0 <= i < j < v.len() ==> spec_le(#[trigger] v[i], #[trigger] v[j])
}

/// Every entry is runnable: its parameter suits it and its hardness is its own.
pub open spec fn specs_ok(v: Seq<StrategySpec>) -> bool {
    forall|i: int| 0 <= i < v.len() ==> param_ok((#[trigger] v[i]).kind, v[i].param as int) && v[i].hardness == kind_h(v[i].kind, v[i].param as int)
}

fn hardness_of(kind: StrategyKind, param: usize) -> (h: i32)
    requires param_ok(kind, param as int),
    ensures h == kind_h(kind, param as int),
{
    match kind {
        StrategyKind::Single => H_SINGLE,
        StrategyKind::Sure => H_SURE_CANDIDATES,
        StrategyKind::Stranded => stranded_hardness(param),
        StrategyKind::Split => split_hardness(param),
        StrategyKind::MindGap => mindgap_hardness(param),
        StrategyKind::RangeCheck => range_check_hardness(param),
        StrategyKind::NakedSet => naked_set_hardness(param),
        StrategyKind::HiddenSet => hidden_set_hardness(param),
        StrategyKind::Locked => H_LOCKED,
        StrategyKind::Sea => sea_creature_hardness(param),
        StrategyKind::Unique => H_UNIQUE,
        StrategyKind::Setti => H_SETTI,
        StrategyKind::SettiConsider => H_SETTI_CONSIDER,
        StrategyKind::SettiSet => H_SETTI_SET,
        StrategyKind::YWing => H_YWING,
        StrategyKind::BinaryGuess => H_BINARY_GUESS,
    }
}

/// Appends the entries of `kind` for the parameters `lo..=hi`.
fn push_run(specs: &mut Vec<StrategySpec>, order: &mut i32, kind: StrategyKind, lo: usize, hi: usize)
    requires
        lo <= hi + 1, hi <= 9, 0 <= *old(order) <= 100,
        forall|p: int| lo <= p <= hi ==> param_ok(kind, p),
    ensures
        final(specs)@ == old(specs)@ + run(kind, lo as int, hi as int, *old(order) + 1),
        *final(order) == *old(order) + (hi - lo + 1),
{
    let ghost start = specs@;
    let ghost o0 = *order;
    for p in lo..hi + 1
        invariant
            lo <= p <= hi + 1, hi <= 9, 0 <= o0 <= 100,
            *order == o0 + (p - lo),
            forall|q: int| lo <= q <= hi ==> param_ok(kind, q),
            specs@ == start + run(kind, lo as int, (p - 1) as int, o0 + 1),
    {
        *order = *order + 1;
        let h = hardness_of(kind, p);
        specs.push(StrategySpec { hardness: h, kind, param: p, order: *order });
        proof {
            assert(run(kind, lo as int, p as int, o0 + 1) =~= run(kind, lo as int, (p - 1) as int, o0 + 1).push(
                entry(kind, p as int, o0 + 1 + (p - lo)),
            ));
        }
    }
}

/// Appends the entry of a strategy without parameter.
fn push_one(specs: &mut Vec<StrategySpec>, order: &mut i32, kind: StrategyKind)
    requires 0 <= *old(order) <= 100, param_ok(kind, 0),
    ensures
        final(specs)@ == old(specs)@.push(entry(kind, 0, *old(order) + 1)),
        *final(order) == *old(order) + 1,
{
    *order = *order + 1;
    let h = hardness_of(kind, 0);
    specs.push(StrategySpec { hardness: h, kind, param: 0, order: *order });
}

/// Whether `a` goes before `b` in the sorted list.
fn spec_before(a: &StrategySpec, b: &StrategySpec) -> (r: bool)
    ensures r == (a.hardness < b.hardness || (a.hardness == b.hardness && a.order < b.order)),
{
    a.hardness < b.hardness || (a.hardness == b.hardness && a.order < b.order)
}

/// All strategies, sorted by hardness and, at equal hardness, by the order
/// in which they are listed.
pub(crate) fn strategy_order() -> (specs: Vec<StrategySpec>)
    ensures
        specs@.to_multiset() == listed_specs().to_multiset(),
        sorted_specs(specs@),
        specs_ok(specs@),
        specs@.len() == 52,
        table_listed(specs@),
{
    let mut listed: Vec<StrategySpec> = Vec::new();
    let mut order: i32 = 0;
    push_one(&mut listed, &mut order, StrategyKind::Single);
    push_one(&mut listed, &mut order, StrategyKind::Sure);
    push_run(&mut listed, &mut order, StrategyKind::Stranded, 2, 9);
    push_run(&mut listed, &mut order, StrategyKind::Split, 3, 9);
    push_run(&mut listed, &mut order, StrategyKind::MindGap, 2, 9);
    push_run(&mut listed, &mut order, StrategyKind::RangeCheck, 2, 9);
    push_run(&mut listed, &mut order, StrategyKind::NakedSet, 2, 5);
    push_run(&mut listed, &mut order, StrategyKind::HiddenSet, 2, 5);
    push_one(&mut listed, &mut order, StrategyKind::Locked);
    push_run(&mut listed, &mut order, StrategyKind::Sea, 2, 5);
    push_one(&mut listed, &mut order, StrategyKind::Unique);
    push_one(&mut listed, &mut order, StrategyKind::Setti);
    push_one(&mut listed, &mut order, StrategyKind::SettiConsider);
    push_one(&mut listed, &mut order, StrategyKind::SettiSet);
    push_one(&mut listed, &mut order, StrategyKind::YWing);
    push_one(&mut listed, &mut order, StrategyKind::BinaryGuess);
    proof {
        assert(listed@ =~= listed_specs());
        assert(specs_ok(listed@)) by {
            assert forall|i: int| 0 <= i < listed@.len() implies param_ok((#[trigger] listed@[i]).kind, listed@[i].param as int)
                && listed@[i].hardness == kind_h(listed@[i].kind, listed@[i].param as int) by {
                lemma_listed_entry(i);
            }
        }
    }
    let mut sorted: Vec<StrategySpec> = Vec::new();
    proof {
        assert(sorted@ =~= listed@.take(0));
    }
    for k in 0..listed.len()
        invariant
            listed@ == listed_specs(),
            specs_ok(listed@),
            specs_ok(sorted@),
            sorted_specs(sorted@),
            sorted@.to_multiset() == listed@.take(k as int).to_multiset(),
            sorted@.len() == k,
    {
        let x = listed[k];
        let mut pos: usize = 0;
        while pos < sorted.len() && !spec_before(&x, &sorted[pos])
            invariant
                pos <= sorted@.len(),
                forall|i: int| 0 <= i < pos ==> spec_le(#[trigger] sorted@[i], x),
                sorted_specs(sorted@),
            decreases sorted@.len() - pos,
        {
            pos = pos + 1;
        }
        proof {
            assert forall|i: int| pos <= i < sorted@.len() implies !spec_le(#[trigger] sorted@[i], x) || spec_le(x, sorted@[i]) by {
                if pos < sorted@.len() {
                    assert(spec_le(sorted@[pos as int], sorted@[i]) || i == pos);
                }
            }
            to_multiset_insert(sorted@, pos as int, x);
            assert(listed@.take(k + 1) == listed@.take(k as int).push(x));
            vstd::seq_lib::to_multiset_build(listed@.take(k as int), x);
        }
        let ghost before = sorted@;
        sorted.insert(pos, x);
        proof {
            assert forall|i: int, j: int| 0 <= i < j < sorted@.len() implies spec_le(#[trigger] sorted@[i], #[trigger] sorted@[j]) by {
                if i < pos && j == pos {
                } else if i == pos && j > pos {
                    assert(sorted@[j] == before[j - 1]);
                    if pos < before.len() {
                        assert(spec_le(before[pos as int], before[j - 1]) || j - 1 == pos);
                    }
                } else if i < pos && j > pos {
                    assert(sorted@[j] == before[j - 1]);
                } else if j < pos {
                } else {
                    assert(sorted@[i] == before[i - 1]);
                    assert(sorted@[j] == before[j - 1]);
                }
            }
            assert(specs_ok(sorted@)) by {
                assert forall|i: int| 0 <= i < sorted@.len() implies param_ok((#[trigger] sorted@[i]).kind, sorted@[i].param as int)
                    && sorted@[i].hardness == kind_h(sorted@[i].kind, sorted@[i].param as int) by {
                    if i < pos {
                        assert(sorted@[i] == before[i]);
                    } else if i > pos {
                        assert(sorted@[i] == before[i - 1]);
                    }
                }
            }
        }
    }
    proof {
        assert(listed@.take(52) == listed@);
        lemma_table_of(sorted@);
        reveal(table_listed);
    }
    sorted
}

proof fn lemma_listed_entry(i: int)
    requires 0 <= i < listed_specs().len(),
    ensures
        param_ok(listed_specs()[i].kind, listed_specs()[i].param as int),
        listed_specs()[i].hardness == kind_h(listed_specs()[i].kind, listed_specs()[i].param as int),
{
    let l = listed_specs();
    assert(l.len() == 52);
}

/// Some entry of `v` is the strategy `kind` with parameter `param`.
pub open spec fn has_spec(v: Seq<StrategySpec>, kind: StrategyKind, param: int) -> bool {
    exists|i: int| 0 <= i < v.len() && (#[trigger] v[i]).kind == kind && v[i].param == param
}

/// The strategies a human solve tries: stranded digits, mind the gap and the
/// range check on compartments of 2 to 9 cells, the split rule on 3 to 9,
/// naked and hidden sets and sea creatures of 2 to 5, and each other
/// strategy once (parameter 0).
pub open spec fn in_table(kind: StrategyKind, param: int) -> bool {
    match kind {
        StrategyKind::Stranded | StrategyKind::MindGap | StrategyKind::RangeCheck => 2 <= param <= 9,
        StrategyKind::Split => 3 <= param <= 9,
        StrategyKind::NakedSet | StrategyKind::HiddenSet | StrategyKind::Sea => 2 <= param <= 5,
        _ => param == 0,
    }
}

/// The listed strategies are exactly those of the table, each once, and
/// stranded digits on two-cell compartments has hardness 12.
pub proof fn law_strategy_table()
    ensures
        forall|kind: StrategyKind, param: int| #[trigger] in_table(kind, param) ==> has_spec(listed_specs(), kind, param),
        forall|i: int| 0 <= i < listed_specs().len() ==> in_table((#[trigger] listed_specs()[i]).kind, listed_specs()[i].param as int),
        forall|i: int| 0 <= i < listed_specs().len() && (#[trigger] listed_specs()[i]).kind == StrategyKind::Stranded
            && listed_specs()[i].param == 2 ==> listed_specs()[i].hardness == 12,
{
    let l = listed_specs();
    assert(l.len() == 52);
    assert forall|kind: StrategyKind, param: int| #[trigger] in_table(kind, param) implies has_spec(l, kind, param) by {
        let i: int = match kind {
            StrategyKind::Single => 0,
            StrategyKind::Sure => 1,
            StrategyKind::Stranded => param,
            StrategyKind::Split => param + 7,
            StrategyKind::MindGap => param + 15,
            StrategyKind::RangeCheck => param + 23,
            StrategyKind::NakedSet => param + 31,
            StrategyKind::HiddenSet => param + 35,
            StrategyKind::Locked => 41,
            StrategyKind::Sea => param + 40,
            StrategyKind::Unique => 46,
            StrategyKind::Setti => 47,
            StrategyKind::SettiConsider => 48,
            StrategyKind::SettiSet => 49,
            StrategyKind::YWing => 50,
            StrategyKind::BinaryGuess => 51,
        };
        assert(l[i].kind == kind && l[i].param == param);
    }
}

/// `v` lists exactly the strategies of the table, and stranded digits on
/// two-cell compartments with hardness 12.
#[verifier::opaque]
pub open spec fn table_listed(v: Seq<StrategySpec>) -> bool {
    &&& forall|kind: StrategyKind, param: int| #[trigger] in_table(kind, param) ==> has_spec(v, kind, param)
    &&& forall|i: int| 0 <= i < v.len() ==> in_table((#[trigger] v[i]).kind, v[i].param as int)
    &&& forall|i: int| 0 <= i < v.len() && (#[trigger] v[i]).kind == StrategyKind::Stranded && v[i].param == 2 ==> v[i].hardness == 12
}

/// What `strategy_order` lists: every strategy of the table, and nothing else.
pub proof fn law_strategy_order(v: Seq<StrategySpec>)
    requires table_listed(v),
    ensures
        forall|kind: StrategyKind, param: int| #[trigger] in_table(kind, param) ==> has_spec(v, kind, param),
        forall|i: int| 0 <= i < v.len() ==> in_table((#[trigger] v[i]).kind, v[i].param as int),
        forall|i: int| 0 <= i < v.len() && (#[trigger] v[i]).kind == StrategyKind::Stranded && v[i].param == 2 ==> v[i].hardness == 12,
{
    reveal(table_listed);
}

/// The same holds of any list with the same entries.
proof fn lemma_table_of(v: Seq<StrategySpec>)
    requires v.to_multiset() == listed_specs().to_multiset(),
    ensures
        forall|kind: StrategyKind, param: int| #[trigger] in_table(kind, param) ==> has_spec(v, kind, param),
        forall|i: int| 0 <= i < v.len() ==> in_table((#[trigger] v[i]).kind, v[i].param as int),
        forall|i: int| 0 <= i < v.len() && (#[trigger] v[i]).kind == StrategyKind::Stranded && v[i].param == 2 ==> v[i].hardness == 12,
{
    law_strategy_table();
    let l = listed_specs();
    assert forall|kind: StrategyKind, param: int| #[trigger] in_table(kind, param) implies has_spec(v, kind, param) by {
        let i = choose|i: int| 0 <= i < l.len() && (#[trigger] l[i]).kind == kind && l[i].param == param;
        vstd::seq_lib::to_multiset_contains(l, l[i]);
        vstd::seq_lib::to_multiset_contains(v, l[i]);
        let j = choose|j: int| 0 <= j < v.len() && v[j] == l[i];
        assert(v[j].kind == kind && v[j].param == param);
    }
    assert forall|i: int| 0 <= i < v.len() implies in_table((#[trigger] v[i]).kind, v[i].param as int)
        && (v[i].kind == StrategyKind::Stranded && v[i].param == 2 ==> v[i].hardness == 12) by {
        vstd::seq_lib::to_multiset_contains(v, v[i]);
        vstd::seq_lib::to_multiset_contains(l, v[i]);
        let j = choose|j: int| 0 <= j < l.len() && l[j] == v[i];
        assert(in_table(l[j].kind, l[j].param as int));
    }
}

/// What the strategy looks for is on the board `a` (the split rule never
/// finds anything; the binary guess is left out).
pub open spec fn kind_applies(kind: StrategyKind, param: int, a: HumanStr8ts) -> bool {
    match kind {
        StrategyKind::Single => (exists|r: int, c: int| #[trigger] naked_single(a, r, c)) || comps_single(a, comps_view(a.row_compartments))
            || comps_single(a, comps_view(a.col_compartments)),
        StrategyKind::Sure => sure_bites(a, true) || sure_bites(a, false),
        StrategyKind::Stranded => exists|i: int| 0 <= i < comps_view(a.row_compartments).len() + comps_view(a.col_compartments).len()
            && (comps_view(a.row_compartments) + comps_view(a.col_compartments))[i].len() == param && #[trigger] stranded_bites(
            a,
            (comps_view(a.row_compartments) + comps_view(a.col_compartments))[i],
        ),
        StrategyKind::Split => false,
        StrategyKind::MindGap => exists|i: int| 0 <= i < comps_view(a.row_compartments).len() + comps_view(a.col_compartments).len()
            && (comps_view(a.row_compartments) + comps_view(a.col_compartments))[i].len() == param && #[trigger] mindgap_bites(
            a,
            (comps_view(a.row_compartments) + comps_view(a.col_compartments))[i],
        ),
        StrategyKind::RangeCheck => exists|i: int| 0 <= i < comps_view(a.row_compartments).len() + comps_view(a.col_compartments).len()
            && (comps_view(a.row_compartments) + comps_view(a.col_compartments))[i].len() == param && #[trigger] range_bites(
            a,
            (comps_view(a.row_compartments) + comps_view(a.col_compartments))[i],
        ),
        StrategyKind::NakedSet => naked_anywhere(a, param),
        StrategyKind::HiddenSet => hidden_anywhere(a, param),
        StrategyKind::Locked => locked_line_bites(a, true) || locked_line_bites(a, false),
        StrategyKind::Setti => exists|num: u8| is_digit(num) && #[trigger] rule_bites(a, num),
        StrategyKind::SettiSet => setti_set_anywhere(a),
        StrategyKind::SettiConsider => exists|num: u8, line: int, by_rows: bool| #[trigger] consider_applies(a, num, line, by_rows),
        StrategyKind::Sea => sea_anywhere(a, param),
        StrategyKind::Unique => exists|r1: usize, r2: usize, c1: usize, c2: usize| r1 < r2 < 9 && c1 < c2 < 9 && #[trigger] rect_found(
            a,
            r1,
            r2,
            c1,
            c2,
        ),
        StrategyKind::YWing => exists|r: usize, c: usize, w1: (usize, usize), w2: (usize, usize), z: u8| r < 9 && c < 9
            && #[trigger] ywing_found(a, r, c, w1, w2, z),
        StrategyKind::BinaryGuess => false,
    }
}

/// For every strategy but the binary guess: it answers 0 exactly when what it
/// looks for is not on the board `a`; the split rule also leaves `b` as `a`.
pub open spec fn none_found(kind: StrategyKind, param: int, a: HumanStr8ts, b: HumanStr8ts, res: i32) -> bool {
    &&& kind != StrategyKind::BinaryGuess ==> (res == 0 <==> !kind_applies(kind, param, a))
    &&& kind == StrategyKind::Split ==> b == a
}

/// Runs a strategy other than the binary guess.
pub(crate) fn apply_basic_strategy(s: &mut HumanStr8ts, kind: StrategyKind, param: usize) -> (res: i32)
    requires old(s).wf(), param_ok(kind, param as int), kind != StrategyKind::BinaryGuess,
    ensures
        strategy_done(*old(s), *final(s), res, kind_h(kind, param as int) as i32),
        none_found(kind, param as int, *old(s), *final(s), res),
{
    match kind {
        StrategyKind::Single => use_single(s),
        StrategyKind::Sure => use_sure_candidates(s),
        StrategyKind::Stranded => use_stranded_digits(s, param),
        StrategyKind::Split => use_split_compartment(s, param),
        StrategyKind::MindGap => use_mind_the_gap(s, param),
        StrategyKind::RangeCheck => use_compartment_range_check(s, param),
        StrategyKind::NakedSet => use_naked_set(s, param),
        StrategyKind::HiddenSet => use_hidden_set(s, param),
        StrategyKind::Locked => use_locked_compartments(s),
        StrategyKind::Sea => use_sea_creature(s, param),
        StrategyKind::Unique => use_unique_solution_constraint(s),
        StrategyKind::Setti => use_settis_rule(s),
        StrategyKind::SettiConsider => use_setti_consider(s),
        StrategyKind::SettiSet => use_setti_set(s),
        StrategyKind::YWing => use_ywing(s),
        StrategyKind::BinaryGuess => 0,
    }
}

} // verus!
