//! What the user's answers mean, character by character, and what follows for each
//! file.

use crate::actions::{
    all_plans, group_choice, group_files, group_plan, main_choice, plans_of, Choice, FileAction,
    Operation, PlannedAction, Selection,
};
use crate::duplicates::DuplicateGroup;
use crate::session::{answered, Prompt, Reply, ReplyView};
use crate::text::{
    decimal, decimal_has_no_leading_zero, digits_value, is_white_space, trimmed_between,
    unsigned_reads_digits,
};
use vstd::prelude::*;

verus! {

/// A plan names every file of its group, in their order. The selected file is kept,
/// if one is to be kept; with every other file the operation is done.
pub proof fn plan_follows_selection(files: Seq<usize>, selection: Selection, i: int)
    requires
        0 <= i < files.len(),
    ensures
        group_plan(files, selection).len() == files.len(),
        group_plan(files, selection)[i].file == files[i],
        ({
            let action = group_plan(files, selection)[i].action;
            let selected = selection.keep_index matches Some(index) && index == i;
            &&& action == FileAction::Keep <==> selection.keep_selected && selected
            &&& action == FileAction::Delete ==> selection.operation == Operation::Delete
            &&& action == FileAction::Move ==> selection.operation == Operation::Move
        }),
{
}

/// There is a plan for every group, about its files, in the order of the groups.
pub proof fn every_group_has_its_plan(groups: Seq<Seq<usize>>, selection: Selection, p: int)
    requires
        0 <= p < groups.len(),
    ensures
        all_plans(groups, selection).len() == groups.len(),
        all_plans(groups, selection)[p] == group_plan(groups[p], selection),
{
}

/// The views of groups, plans and replies leave nothing out.
pub proof fn groups_and_plans_are_seen_whole(
    groups: Seq<DuplicateGroup>,
    plans: Seq<Vec<PlannedAction>>,
    reply: Reply,
)
    ensures
        reply matches Reply::Process(plans) ==> reply@ == ReplyView::Process(plans_of(plans@)),
        reply is Kept <==> reply@ is Kept,
        reply is OneByOne <==> reply@ is OneByOne,
        reply is BadNumber <==> reply@ is BadNumber,
        reply is BadInput <==> reply@ is BadInput,
        group_files(groups).len() == groups.len(),
        forall|g: int| 0 <= g < groups.len() ==> #[trigger] group_files(groups)[g] == groups[g].files@,
        plans_of(plans).len() == plans.len(),
        forall|p: int| 0 <= p < plans.len() ==> #[trigger] plans_of(plans)[p] == plans[p]@,
{
}

/// What an answer to the question about all groups means, white space around it left
/// out.
pub proof fn main_answers(before: Seq<char>, answer: Seq<char>, after: Seq<char>)
    requires
        forall|i: int| 0 <= i < before.len() ==> is_white_space(#[trigger] before[i]),
        forall|i: int| 0 <= i < after.len() ==> is_white_space(#[trigger] after[i]),
        answer.len() > 0 ==> !is_white_space(answer.first()) && !is_white_space(answer.last()),
    ensures
        ({
            let choice = main_choice(before + answer + after);
            let says = |c: char| answer.len() == 1 && answer[0] == c;
            if says('0') {
                choice == Choice::KeepAll
            } else if says('d') || says('D') {
                choice == Choice::Apply(
                    Selection {
                        operation: Operation::Delete,
                        keep_index: None,
                        keep_selected: false,
                    },
                )
            } else if says('m') || says('M') {
                choice == Choice::Apply(
                    Selection {
                        operation: Operation::Move,
                        keep_index: Some(0),
                        keep_selected: true,
                    },
                )
            } else if says('1') {
                choice == Choice::Apply(
                    Selection {
                        operation: Operation::Delete,
                        keep_index: Some(0),
                        keep_selected: true,
                    },
                )
            } else if says('i') || says('I') {
                choice == Choice::EachGroup
            } else {
                choice == Choice::BadInput
            }
        }),
{
    trimmed_between(before, answer, after);
    lemma_one_character(answer);
}

/// A text of one character is that character.
proof fn lemma_one_character(s: Seq<char>)
    ensures
        forall|c: char| s == #[trigger] seq![c] <==> s.len() == 1 && s[0] == c,
{
    assert forall|c: char| s == #[trigger] seq![c] <==> s.len() == 1 && s[0] == c by {
        assert(seq![c][0] == c);
        if s.len() == 1 && s[0] == c {
            assert(s =~= seq![c]);
        }
    }
}

/// What an answer about one group means that is neither a number nor `m` and a
/// number, white space around it left out.
pub proof fn group_answers(before: Seq<char>, answer: Seq<char>, after: Seq<char>, len: nat)
    requires
        forall|i: int| 0 <= i < before.len() ==> is_white_space(#[trigger] before[i]),
        forall|i: int| 0 <= i < after.len() ==> is_white_space(#[trigger] after[i]),
        answer.len() > 0 ==> !is_white_space(answer.first()) && !is_white_space(answer.last()),
    ensures
        ({
            let choice = group_choice(before + answer + after, len);
            let says = |c: char| answer.len() == 1 && answer[0] == c;
            &&& says('0') ==> choice == Choice::KeepAll
            &&& says('d') || says('D') ==> choice == Choice::Apply(
                Selection {
                    operation: Operation::Delete,
                    keep_index: None,
                    keep_selected: false,
                },
            )
            &&& says('m') || says('M') ==> choice == Choice::Apply(
                Selection {
                    operation: Operation::Move,
                    keep_index: Some(0),
                    keep_selected: true,
                },
            )
            &&& answer.len() == 0 || says('+') || answer == seq!['m', '+'] ==> choice
                == Choice::BadInput
            &&& answer.len() > 0 && !says('d') && !says('D') && !says('M') && !('0' <= answer[0] <= '9')
                && answer[0] != '+' && answer[0] != 'm' ==> choice == Choice::BadInput
            &&& answer.len() > 1 && answer[0] == 'm' && !('0' <= answer[1] <= '9') && answer[1]
                != '+' ==> choice == Choice::BadInput
            &&& (exists|at: int|
                1 < at < answer.len() && !('0' <= #[trigger] answer[at] <= '9')) ==> choice
                == Choice::BadInput
            &&& answer.len() > 1 && answer[0] != 'm' && !('0' <= answer[1] <= '9') ==> choice
                == Choice::BadInput
        }),
{
    trimmed_between(before, answer, after);
    lemma_one_character(answer);
    let max = usize::MAX as nat;
    let zero = seq!['0'];
    assert(zero[0] == '0');
    let behind = answer.drop_first();
    if answer == seq!['m', '+'] {
        assert(answer[0] == 'm' && answer[1] == '+');
        assert(behind =~= seq!['+']);
        unsigned_reads_digits(zero, answer, 0, max);
    } else if answer.len() == 0 {
        assert(answer =~= Seq::<char>::empty());
        unsigned_reads_digits(zero, seq!['-'], 0, max);
    } else if answer.len() == 1 && answer[0] == '+' {
        assert(answer =~= seq!['+']);
        unsigned_reads_digits(zero, seq!['-'], 0, max);
    } else {
        if !('0' <= answer[0] <= '9') && answer[0] != '+' {
            unsigned_reads_digits(zero, answer, 0, max);
        }
        if answer.len() > 1 && answer[0] == 'm' && !('0' <= answer[1] <= '9') && answer[1] != '+' {
            assert(behind[0] == answer[1]);
            unsigned_reads_digits(zero, behind, 0, max);
        }
        if exists|at: int| 1 < at < answer.len() && !('0' <= #[trigger] answer[at] <= '9') {
            let at = choose|at: int| 1 < at < answer.len() && !('0' <= #[trigger] answer[at] <= '9');
            assert(behind[at - 1] == answer[at]);
            unsigned_reads_digits(zero, behind, at - 1, max);
            unsigned_reads_digits(zero, answer, at, max);
        }
        if answer.len() > 1 && answer[0] != 'm' && !('0' <= answer[1] <= '9') {
            unsigned_reads_digits(zero, answer, 1, max);
        }
    }
}

/// What digits as an answer about one group mean: all but the file of that number
/// are deleted; with `m` before them, all but it are moved. A plus may stand before
/// the digits. Zero by itself is another answer.
pub proof fn number_answers(
    before: Seq<char>,
    plus: bool,
    digits: Seq<char>,
    after: Seq<char>,
    len: nat,
)
    requires
        forall|i: int| 0 <= i < before.len() ==> is_white_space(#[trigger] before[i]),
        forall|i: int| 0 <= i < after.len() ==> is_white_space(#[trigger] after[i]),
        digits.len() > 0,
        forall|i: int| 0 <= i < digits.len() ==> '0' <= #[trigger] digits[i] <= '9',
        len <= usize::MAX,
    ensures
        ({
            let number = digits_value(digits);
            let text = if plus {
                seq!['+'] + digits
            } else {
                digits
            };
            let deleting = group_choice(before + text + after, len);
            let moving = group_choice(before + (seq!['m'] + text) + after, len);
            &&& 1 <= number <= len ==> deleting == Choice::Apply(
                Selection {
                    operation: Operation::Delete,
                    keep_index: Some((number - 1) as usize),
                    keep_selected: true,
                },
            )
            &&& 1 <= number <= len ==> moving == Choice::Apply(
                Selection {
                    operation: Operation::Move,
                    keep_index: Some((number - 1) as usize),
                    keep_selected: true,
                },
            )
            &&& !(1 <= number <= len) && number <= usize::MAX && text != seq!['0'] ==> deleting
                == Choice::BadNumber
            &&& number > usize::MAX ==> deleting == Choice::BadInput
            &&& !(1 <= number <= len) ==> moving == Choice::BadInput
        }),
{
    let number = digits_value(digits);
    let max = usize::MAX as nat;
    let text = if plus {
        seq!['+'] + digits
    } else {
        digits
    };
    let long = seq!['m'] + text;
    assert('0' <= digits[0] <= '9' && '0' <= digits[digits.len() - 1] <= '9');
    assert(text.last() == digits[digits.len() - 1]);
    assert(text.first() == (if plus {
        '+'
    } else {
        digits[0]
    }));
    assert(long.first() == 'm' && long.last() == text.last());
    assert(long.drop_first() =~= text);
    trimmed_between(before, text, after);
    trimmed_between(before, long, after);
    lemma_one_character(text);
    lemma_one_character(long);
    unsigned_reads_digits(digits, long, 0, max);
    if text == seq!['0'] {
        assert(!plus);
        assert(digits =~= seq!['0']);
        crate::text::digits_join(digits, digits);
        assert(number == 0);
    }
    if number > max {
        assert(text.drop_first() =~= (if plus {
            digits
        } else {
            digits.drop_first()
        }));
    }
}

/// Every number of a file of a group, as it is written, selects the file of that
/// number.
pub proof fn written_numbers_select(number: nat, len: nat)
    requires
        1 <= number <= len,
        len <= usize::MAX,
    ensures
        group_choice(decimal(number), len) == Choice::Apply(
            Selection {
                operation: Operation::Delete,
                keep_index: Some((number - 1) as usize),
                keep_selected: true,
            },
        ),
        group_choice(seq!['m'] + decimal(number), len) == Choice::Apply(
            Selection {
                operation: Operation::Move,
                keep_index: Some((number - 1) as usize),
                keep_selected: true,
            },
        ),
{
    let none = Seq::<char>::empty();
    let digits = decimal(number);
    decimal_has_no_leading_zero(number);
    number_answers(none, false, digits, none, len);
    assert(none + digits + none =~= digits);
    assert(none + (seq!['m'] + digits) + none =~= seq!['m'] + digits);
}

/// What follows from an answer to the question about all groups: where files are
/// dealt with, there is a plan for every group, about all its files, and each file
/// is kept, deleted or moved as the answer says; the dialogue is over.
pub proof fn main_answer_is_applied(
    before: Seq<char>,
    answer: Seq<char>,
    after: Seq<char>,
    groups: Seq<Seq<usize>>,
)
    requires
        forall|i: int| 0 <= i < before.len() ==> is_white_space(#[trigger] before[i]),
        forall|i: int| 0 <= i < after.len() ==> is_white_space(#[trigger] after[i]),
        answer.len() > 0 ==> !is_white_space(answer.first()) && !is_white_space(answer.last()),
    ensures
        ({
            let (next, reply) = answered(Prompt::Main, before + answer + after, groups);
            let says = |c: char| answer.len() == 1 && answer[0] == c;
            let deleting = says('d') || says('D');
            let moving = says('m') || says('M');
            if says('0') {
                next == Prompt::Done && reply is Kept
            } else if deleting || moving || says('1') {
                &&& next == Prompt::Done
                &&& reply matches ReplyView::Process(plans)
                &&& plans.len() == groups.len()
                &&& forall|p: int|
                    0 <= p < groups.len() ==> (#[trigger] plans[p]).len() == groups[p].len()
                &&& forall|p: int, i: int|
                    0 <= p < groups.len() && 0 <= i < groups[p].len() ==> {
                        let step = #[trigger] plans[p][i];
                        &&& step.file == groups[p][i]
                        &&& step.action == (if deleting {
                            FileAction::Delete
                        } else if i == 0 {
                            FileAction::Keep
                        } else if moving {
                            FileAction::Move
                        } else {
                            FileAction::Delete
                        })
                    }
            } else if says('i') || says('I') {
                &&& reply is OneByOne
                &&& groups.len() > 0 ==> next == Prompt::Group(0)
                &&& groups.len() == 0 ==> next == Prompt::Done
            } else {
                next == Prompt::Main && reply is BadInput
            }
        }),
{
    main_answers(before, answer, after);
}

/// What follows from an answer to the question about one group that is not a
/// number: one plan, about all files of this group; then the next group is asked
/// about, or the dialogue is over.
pub proof fn group_answer_is_applied(
    g: usize,
    before: Seq<char>,
    answer: Seq<char>,
    after: Seq<char>,
    groups: Seq<Seq<usize>>,
)
    requires
        forall|i: int| 0 <= i < before.len() ==> is_white_space(#[trigger] before[i]),
        forall|i: int| 0 <= i < after.len() ==> is_white_space(#[trigger] after[i]),
        answer.len() > 0 ==> !is_white_space(answer.first()) && !is_white_space(answer.last()),
        g < groups.len() <= usize::MAX,
    ensures
        ({
            let (next, reply) = answered(Prompt::Group(g), before + answer + after, groups);
            let says = |c: char| answer.len() == 1 && answer[0] == c;
            let deleting = says('d') || says('D');
            let moving = says('m') || says('M');
            let moves_on = if g + 1 == groups.len() {
                next == Prompt::Done
            } else {
                next == Prompt::Group((g + 1) as usize)
            };
            &&& says('0') ==> reply is Kept && moves_on
            &&& deleting || moving ==> {
                &&& moves_on
                &&& reply matches ReplyView::Process(plans)
                &&& plans.len() == 1
                &&& plans[0].len() == groups[g as int].len()
                &&& forall|i: int|
                    0 <= i < groups[g as int].len() ==> {
                        let step = #[trigger] plans[0][i];
                        &&& step.file == groups[g as int][i]
                        &&& step.action == (if deleting {
                            FileAction::Delete
                        } else if i == 0 {
                            FileAction::Keep
                        } else {
                            FileAction::Move
                        })
                    }
            }
            &&& group_choice(before + answer + after, groups[g as int].len()) == Choice::BadInput
                ==> next == Prompt::Group(g) && reply is BadInput
        }),
{
    group_answers(before, answer, after, groups[g as int].len());
}

/// What follows from a number as the answer to the question about one group: the
/// file of that number is kept, the others are deleted, or moved where `m` stands
/// before the number. A number that no file has is asked for again.
pub proof fn number_answer_is_applied(
    g: usize,
    before: Seq<char>,
    plus: bool,
    digits: Seq<char>,
    after: Seq<char>,
    groups: Seq<Seq<usize>>,
)
    requires
        forall|i: int| 0 <= i < before.len() ==> is_white_space(#[trigger] before[i]),
        forall|i: int| 0 <= i < after.len() ==> is_white_space(#[trigger] after[i]),
        digits.len() > 0,
        forall|i: int| 0 <= i < digits.len() ==> '0' <= #[trigger] digits[i] <= '9',
        g < groups.len() <= usize::MAX,
        groups[g as int].len() <= usize::MAX,
    ensures
        ({
            let files = groups[g as int];
            let number = digits_value(digits);
            let text = if plus {
                seq!['+'] + digits
            } else {
                digits
            };
            let (next, reply) = answered(Prompt::Group(g), before + text + after, groups);
            let (then_next, then_reply) = answered(
                Prompt::Group(g),
                before + (seq!['m'] + text) + after,
                groups,
            );
            let following = if g + 1 == groups.len() {
                Prompt::Done
            } else {
                Prompt::Group((g + 1) as usize)
            };
            if 1 <= number <= files.len() {
                &&& next == following && then_next == following
                &&& reply matches ReplyView::Process(plans)
                &&& then_reply matches ReplyView::Process(moves)
                &&& plans.len() == 1 && plans[0].len() == files.len()
                &&& moves.len() == 1 && moves[0].len() == files.len()
                &&& forall|i: int|
                    0 <= i < files.len() ==> {
                        let step = #[trigger] plans[0][i];
                        step.file == files[i] && step.action == (if i == number - 1 {
                            FileAction::Keep
                        } else {
                            FileAction::Delete
                        })
                    }
                &&& forall|i: int|
                    0 <= i < files.len() ==> {
                        let step = #[trigger] moves[0][i];
                        step.file == files[i] && step.action == (if i == number - 1 {
                            FileAction::Keep
                        } else {
                            FileAction::Move
                        })
                    }
            } else {
                &&& then_next == Prompt::Group(g) && then_reply is BadInput
                &&& number > usize::MAX ==> next == Prompt::Group(g) && reply is BadInput
                &&& number <= usize::MAX && text != seq!['0'] ==> next == Prompt::Group(g)
                    && reply is BadNumber
            }
        }),
{
    number_answers(before, plus, digits, after, groups[g as int].len());
}

} // verus!
